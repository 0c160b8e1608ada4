use subscriber::codec::{DecodeError, Encoding};
use subscriber::ingest::{strip_parent, Decision, IngestError, IngestionPipeline};
use subscriber::instant::Instant;
use subscriber::series::Reading;
use subscriber::store::{StoreError, TimeSeriesStore};
use subscriber::topic::{AllowList, StorageKey};

fn number(payload: &[u8]) -> Option<u32> {
    std::str::from_utf8(payload).ok()?.parse::<f32>().ok().map(f32::to_bits)
}

fn at(secs: i64) -> Instant {
    Instant::from_unix_seconds(secs)
}

fn key(subtopic: &str) -> StorageKey {
    StorageKey::from_subtopic(subtopic.as_bytes()).unwrap()
}

fn text_pipeline() -> (IngestionPipeline, TimeSeriesStore) {
    let topics = AllowList::from_config("sensor/a,sensor/b", Encoding::Text).unwrap();
    let mut store = TimeSeriesStore::new();
    store.ensure_all(&topics);
    (IngestionPipeline::new("parent/", topics), store)
}

#[test]
fn the_parent_topic_is_stripped() {
    assert_eq!(strip_parent(b"parent/", b"parent/sensor/a"), Some(b"sensor/a".to_vec()));
    assert_eq!(strip_parent(b"parent/", b"parent/"), Some(b"".to_vec()));
    assert_eq!(strip_parent(b"", b"sensor/a"), Some(b"sensor/a".to_vec()));
    assert_eq!(strip_parent(b"parent/", b"parent"), None);
    assert_eq!(strip_parent(b"parent/", b"parenT/sensor/a"), None);
    assert_eq!(strip_parent(b"parent/", b""), None);
}

#[test]
fn subscriptions_are_parent_and_subtopic() {
    let (pipeline, _) = text_pipeline();
    assert_eq!(pipeline.allow_list().len(), 2);
    assert_eq!(pipeline.subscription(0), b"parent/sensor/a".to_vec());
    assert_eq!(pipeline.subscription(1), b"parent/sensor/b".to_vec());
}

#[test]
fn a_text_reading_is_written() {
    let (pipeline, mut store) = text_pipeline();
    let payload = b"12.5";
    assert_eq!(
        pipeline.decide("parent/sensor/b", payload, number(payload)),
        Ok(Decision::Write { index: 1, value: 12.5f32.to_bits() })
    );
    assert_eq!(pipeline.handle(&mut store, "parent/sensor/b", payload, number(payload), at(7)), Ok(()));
    assert_eq!(
        store.range_query(&key("sensor/b"), at(0), at(10)),
        Ok(vec![Reading { timestamp: at(7), value: 12.5f32.to_bits() }])
    );
    assert_eq!(store.range_query(&key("sensor/a"), at(0), at(10)), Ok(vec![]));
}

#[test]
fn a_topic_off_the_list_is_refused() {
    let (pipeline, mut store) = text_pipeline();
    let payload = b"12.5";
    for topic in ["parent/sensor/c", "other/sensor/a", "sensor/a", "parent/", "parent/sensor/a/x", ""] {
        assert_eq!(
            pipeline.handle(&mut store, topic, payload, number(payload), at(7)),
            Err(IngestError::UnknownTopic)
        );
    }
    assert_eq!(store.range_query(&key("sensor/a"), at(0), at(10)), Ok(vec![]));
    assert_eq!(store.range_query(&key("sensor/b"), at(0), at(10)), Ok(vec![]));
}

#[test]
fn the_sentinel_is_skipped_in_text() {
    let (pipeline, mut store) = text_pipeline();
    let payload = b"-Infinity";
    assert_eq!(pipeline.decide("parent/sensor/a", payload, number(payload)), Ok(Decision::Skip));
    assert_eq!(pipeline.handle(&mut store, "parent/sensor/a", payload, number(payload), at(7)), Ok(()));
    assert_eq!(store.range_query(&key("sensor/a"), at(0), at(10)), Ok(vec![]));
}

#[test]
fn a_text_zero_is_skipped() {
    let (pipeline, mut store) = text_pipeline();
    for payload in [&b"0"[..], b"0.0", b"-0", b"0e5"] {
        assert_eq!(pipeline.decide("parent/sensor/a", payload, number(payload)), Ok(Decision::Skip));
        assert_eq!(
            pipeline.handle(&mut store, "parent/sensor/a", payload, number(payload), at(7)),
            Ok(())
        );
    }
    assert_eq!(store.range_query(&key("sensor/a"), at(0), at(10)), Ok(vec![]));
}

#[test]
fn a_binary_zero_is_written() {
    let topics = AllowList::from_config("sensor/a", Encoding::Binary).unwrap();
    let mut store = TimeSeriesStore::new();
    store.ensure_all(&topics);
    let pipeline = IngestionPipeline::new("parent/", topics);
    let payload = 0.0f32.to_be_bytes();
    assert_eq!(
        pipeline.decide("parent/sensor/a", &payload, None),
        Ok(Decision::Write { index: 0, value: 0 })
    );
    assert_eq!(pipeline.handle(&mut store, "parent/sensor/a", &payload, None, at(7)), Ok(()));
    assert_eq!(
        store.range_query(&key("sensor/a"), at(0), at(10)),
        Ok(vec![Reading { timestamp: at(7), value: 0 }])
    );
}

#[test]
fn the_encoding_goes_by_the_topic() {
    let mut topics = AllowList::from_config("sensor/a,sensor/b", Encoding::Text).unwrap();
    topics.set_encoding(1, Encoding::Binary);
    let pipeline = IngestionPipeline::new("parent/", topics);
    let payload = b"12.5";
    assert_eq!(
        pipeline.decide("parent/sensor/a", payload, number(payload)),
        Ok(Decision::Write { index: 0, value: 12.5f32.to_bits() })
    );
    assert_eq!(
        pipeline.decide("parent/sensor/b", payload, number(payload)),
        Ok(Decision::Write { index: 1, value: 0x3132_2e35 })
    );
    assert_eq!(
        pipeline.decide("parent/sensor/b", b"12.50", number(b"12.50")),
        Err(IngestError::Decode(DecodeError::MalformedBinary))
    );
}

#[test]
fn a_malformed_payload_is_refused_and_the_store_untouched() {
    let (pipeline, mut store) = text_pipeline();
    assert_eq!(
        pipeline.handle(&mut store, "parent/sensor/a", b"abc", number(b"abc"), at(7)),
        Err(IngestError::Decode(DecodeError::MalformedText))
    );
    assert_eq!(
        pipeline.handle(&mut store, "parent/sensor/a", b"", number(b""), at(7)),
        Err(IngestError::Decode(DecodeError::MalformedText))
    );
    assert_eq!(
        pipeline.handle(&mut store, "parent/sensor/a", &[0xff], number(&[0xff]), at(7)),
        Err(IngestError::Decode(DecodeError::Encoding))
    );
    assert_eq!(store.range_query(&key("sensor/a"), at(0), at(10)), Ok(vec![]));
}

#[test]
fn a_second_reading_at_the_same_instant_is_dropped() {
    let (pipeline, mut store) = text_pipeline();
    assert_eq!(pipeline.handle(&mut store, "parent/sensor/a", b"1.5", number(b"1.5"), at(7)), Ok(()));
    assert_eq!(
        pipeline.handle(&mut store, "parent/sensor/a", b"2.5", number(b"2.5"), at(7)),
        Err(IngestError::Store(StoreError::Conflict))
    );
    assert_eq!(pipeline.handle(&mut store, "parent/sensor/b", b"2.5", number(b"2.5"), at(7)), Ok(()));
    assert_eq!(
        store.range_query(&key("sensor/a"), at(0), at(10)),
        Ok(vec![Reading { timestamp: at(7), value: 1.5f32.to_bits() }])
    );
}

#[test]
fn a_topic_without_a_series_is_a_store_failure() {
    let topics = AllowList::from_config("sensor/a", Encoding::Text).unwrap();
    let pipeline = IngestionPipeline::new("parent/", topics);
    let mut store = TimeSeriesStore::new();
    assert_eq!(
        pipeline.handle(&mut store, "parent/sensor/a", b"1.5", number(b"1.5"), at(7)),
        Err(IngestError::Store(StoreError::Statement))
    );
}

#[test]
fn handle_now_writes_at_the_current_instant() {
    let (pipeline, mut store) = text_pipeline();
    let before = Instant::now();
    assert_eq!(pipeline.handle_now(&mut store, "parent/sensor/a", b"1.5", number(b"1.5")), Ok(()));
    let after = Instant::now();
    let found = store.range_query(&key("sensor/a"), before, after).unwrap();
    assert_eq!(found.len(), 1);
    assert_eq!(found[0].value, 1.5f32.to_bits());
    assert!(before.is_at_or_before(&found[0].timestamp));
    assert!(found[0].timestamp.is_at_or_before(&after));
}
