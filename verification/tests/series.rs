use subscriber::instant::Instant;
use subscriber::series::{Reading, Series};
use subscriber::store::StoreError;

fn at(secs: i64) -> Instant {
    Instant::from_unix_seconds(secs)
}

fn reading(secs: i64, value: f32) -> Reading {
    Reading { timestamp: at(secs), value: value.to_bits() }
}

#[test]
fn a_new_series_is_empty() {
    let series = Series::new();
    assert_eq!(series.len(), 0);
    assert_eq!(series.get(0), None);
    assert_eq!(series.range_query(at(i64::MIN), at(i64::MAX)), vec![]);
}

#[test]
fn range_query_returns_the_readings_in_the_closed_range() {
    let mut series = Series::new();
    for secs in [10, 20, 30, 40, 50] {
        assert_eq!(series.append(at(secs), (secs as f32).to_bits()), Ok(()));
    }
    assert_eq!(
        series.range_query(at(20), at(40)),
        vec![reading(20, 20.0), reading(30, 30.0), reading(40, 40.0)]
    );
    assert_eq!(series.range_query(at(21), at(39)), vec![reading(30, 30.0)]);
    assert_eq!(series.range_query(at(0), at(9)), vec![]);
    assert_eq!(series.range_query(at(51), at(100)), vec![]);
    assert_eq!(series.range_query(at(40), at(20)), vec![]);
    assert_eq!(series.range_query(at(i64::MIN), at(i64::MAX)).len(), 5);
}

#[test]
fn range_of_one_instant_returns_zero_or_one_reading() {
    let mut series = Series::new();
    series.append(at(10), 1).unwrap();
    series.append(at(20), 2).unwrap();
    assert_eq!(series.range_query(at(10), at(10)), vec![Reading { timestamp: at(10), value: 1 }]);
    assert_eq!(series.range_query(at(15), at(15)), vec![]);
}

#[test]
fn appending_out_of_order_yields_sorted_results() {
    let mut series = Series::new();
    for secs in [30, 10, 50, 20, 40, 0, 60] {
        assert_eq!(series.append(at(secs), secs as u32), Ok(()));
    }
    let all = series.range_query(at(0), at(60));
    let order: Vec<i64> = all.iter().map(|r| r.timestamp.secs).collect();
    assert_eq!(order, vec![0, 10, 20, 30, 40, 50, 60]);
    let values: Vec<u32> = all.iter().map(|r| r.value).collect();
    assert_eq!(values, vec![0, 10, 20, 30, 40, 50, 60]);
    assert_eq!(series.get(0), Some(Reading { timestamp: at(0), value: 0 }));
    assert_eq!(series.get(6), Some(Reading { timestamp: at(60), value: 60 }));
    assert_eq!(series.get(7), None);
    let some = series.range_query(at(15), at(45));
    let order: Vec<i64> = some.iter().map(|r| r.timestamp.secs).collect();
    assert_eq!(order, vec![20, 30, 40]);
}

#[test]
fn a_second_reading_at_the_same_instant_is_a_conflict() {
    let mut series = Series::new();
    assert_eq!(series.append(at(10), 12.5f32.to_bits()), Ok(()));
    assert_eq!(series.append(at(20), 1.0f32.to_bits()), Ok(()));
    assert_eq!(series.append(at(10), 99.0f32.to_bits()), Err(StoreError::Conflict));
    assert_eq!(series.append(at(10), 12.5f32.to_bits()), Err(StoreError::Conflict));
    assert_eq!(series.len(), 2);
    assert_eq!(series.range_query(at(10), at(10)), vec![reading(10, 12.5)]);
    assert_eq!(series.range_query(at(0), at(100)), vec![reading(10, 12.5), reading(20, 1.0)]);
}

#[test]
fn nanoseconds_tell_instants_apart() {
    let mut series = Series::new();
    assert_eq!(series.append(Instant::new(10, 500), 2), Ok(()));
    assert_eq!(series.append(Instant::new(10, 0), 1), Ok(()));
    assert_eq!(series.append(Instant::new(10, 999_999_999), 3), Ok(()));
    assert_eq!(series.append(Instant::new(10, 500), 4), Err(StoreError::Conflict));
    let found = series.range_query(at(10), at(10));
    assert_eq!(found, vec![Reading { timestamp: Instant::new(10, 0), value: 1 }]);
    let found = series.range_query(at(10), at(11));
    let values: Vec<u32> = found.iter().map(|r| r.value).collect();
    assert_eq!(values, vec![1, 2, 3]);
    let found = series.range_query(Instant::new(10, 1), Instant::new(10, 500));
    let values: Vec<u32> = found.iter().map(|r| r.value).collect();
    assert_eq!(values, vec![2]);
}

#[test]
fn from_batch_keeps_the_first_reading_of_each_instant() {
    let batch = vec![
        reading(30, 3.0),
        reading(10, 1.0),
        reading(30, 33.0),
        reading(20, 2.0),
        reading(10, 11.0),
    ];
    let series = Series::from_batch(&batch);
    assert_eq!(series.len(), 3);
    assert_eq!(
        series.range_query(at(0), at(100)),
        vec![reading(10, 1.0), reading(20, 2.0), reading(30, 3.0)]
    );
    assert_eq!(Series::from_batch(&vec![]).len(), 0);
}

#[test]
fn every_appended_reading_is_found_in_its_range_and_no_other() {
    let stamps = [7i64, -3, 12, 0, 5, 9, -8, 3];
    let mut series = Series::new();
    for secs in stamps {
        series.append(at(secs), secs as u32).unwrap();
    }
    for from in -10..15 {
        for to in -10..15 {
            let found = series.range_query(at(from), at(to));
            let mut expected: Vec<i64> =
                stamps.iter().copied().filter(|s| from <= *s && *s <= to).collect();
            expected.sort();
            let got: Vec<i64> = found.iter().map(|r| r.timestamp.secs).collect();
            assert_eq!(got, expected);
        }
    }
}
