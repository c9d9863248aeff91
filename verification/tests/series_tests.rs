use timeseries::{DataPoint, SeriesError, TimeSeries, ToSeries};
use timeseries::index::DateTimeIndex;

fn words(values: &[f64]) -> Vec<u64> {
    values.iter().map(|v| v.to_bits()).collect()
}

fn point(timestamp: i64, value: f64) -> DataPoint {
    DataPoint::new(timestamp, value.to_bits())
}

#[test]
fn test_new() {
    let values = words(&[1.0, 2.5, 3.2, 4.0, 3.0]);
    let index = (0..values.len()).map(|i| 60 * i as i64).collect();
    let ts = TimeSeries::new(index, values);
    assert_eq!(ts.len(), 5);
}

#[test]
fn test_new_different_lengths() {
    // Construction truncates to the shorter of the increasing timestamp
    // prefix and the value count, so two of the five timestamps are dropped.
    let values = words(&[1.0, 2.5, 3.2]);
    let index = vec![1, 2, 3, 4, 5];
    let ts = TimeSeries::new(index, values);
    assert_eq!(ts.len(), 3);
    assert_eq!(ts.index().len(), 3);
    assert_eq!(ts.values().len(), 3);
    assert_eq!(ts.values()[2], 3.2f64.to_bits());
}

#[test]
fn test_from_records() {
    let data = vec![point(1, 1.0), point(2, 2.5), point(3, 3.2), point(4, 4.0), point(5, 3.0)];
    let ts = TimeSeries::from_datapoints(data);
    assert_eq!(ts.len(), 5);
}

#[test]
fn test_from_records_increasing() {
    let data = vec![point(1, 1.0), point(2, 2.5), point(3, 3.2), point(4, 4.0), point(3, 3.0)];
    let ts = TimeSeries::from_datapoints(data);
    assert_eq!(ts.len(), 4);
}

fn double_even_index(dp: DataPoint) -> DataPoint {
    let value = f64::from_bits(dp.value);
    let mapped = if dp.timestamp & 1 == 0 { 2.0 * value } else { value };
    point(dp.timestamp, mapped)
}

#[test]
fn test_map() {
    let values = words(&[1.0, 2.5, 3.2, 4.0, 3.0]);
    let expected_values = words(&[2.0, 2.5, 6.4, 4.0, 6.0]);
    let index = (0..values.len()).map(|i| i as i64).collect();
    let index_expected = (0..expected_values.len()).map(|i| i as i64).collect();
    let ts = TimeSeries::new(index, values);
    let ts_expected = TimeSeries::new(index_expected, expected_values);
    let mut cursor = ts.iter();
    let mut mapped = Vec::new();
    while let Some(dp) = cursor.next() {
        mapped.push(double_even_index(dp));
    }
    let ts_out = TimeSeries::from_datapoints(mapped);
    assert_eq!(ts_out, ts_expected);
}

#[test]
fn test_merge() {
    let data1 = vec![point(10, 1.0), point(20, 2.5), point(30, 3.2), point(40, 4.0), point(
        50, 3.0,
    )];
    let data2 = vec![point(40, 41.0), point(45, 42.5), point(50, 53.2), point(55, 54.0), point(
        60, 63.0,
    )];
    // On the timestamp collisions at 40 and 50 the first series wins, so the
    // merged series keeps 4.0 and 3.0 there.
    let expected = vec![
        point(10, 1.0),
        point(20, 2.5),
        point(30, 3.2),
        point(40, 4.0),
        point(45, 42.5),
        point(50, 3.0),
        point(55, 54.0),
        point(60, 63.0),
    ];
    let ts1 = TimeSeries::from_datapoints(data1);
    let ts2 = TimeSeries::from_datapoints(data2);
    let ts_expected = TimeSeries::from_datapoints(expected);
    let ts_merged = ts1.merge(&ts2);
    assert_eq!(ts_merged, ts_expected);
}

#[test]
fn test_create() {
    let ts = TimeSeries::from_timestamp(0, 60, words(&[1.0, 2.5, 3.2]));
    assert_eq!(ts.length(), 3);
}

#[test]
fn test_empty() {
    let ts = TimeSeries::empty();
    assert_eq!(ts.len(), 0);
    assert_eq!(ts.nth(0), None);
}

#[test]
fn test_nth() {
    let index = vec![1, 2, 3, 4, 5];
    let values = words(&[1.0, 2.5, 3.2, 4.0, 3.0]);
    let ts = TimeSeries::new(index, values);
    assert_eq!(ts.nth(1), Some(point(2, 2.5)));
    assert_eq!(ts.nth(10), None);
}

#[test]
fn test_at_step_lookup() {
    let index = vec![100, 160, 220];
    let values = words(&[1.0, 2.5, 3.2]);
    let ts = TimeSeries::new(index, values);
    assert_eq!(f64::from_bits(ts.at(10)), 0.0);
    assert_eq!(f64::from_bits(ts.at(110)), 1.0);
    assert_eq!(f64::from_bits(ts.at(165)), 2.5);
    assert_eq!(f64::from_bits(ts.at(500)), 3.2);
}

#[test]
fn test_at_exact_match() {
    let index = vec![100, 160, 220];
    let values = words(&[1.0, 2.5, 3.2]);
    let ts = TimeSeries::new(index, values);
    assert_eq!(f64::from_bits(ts.at(100)), 1.0);
    assert_eq!(f64::from_bits(ts.at(220)), 3.2);
}

fn float_difference(a: u64, b: u64) -> u64 {
    (f64::from_bits(a) - f64::from_bits(b)).to_bits()
}

#[test]
fn test_diff() {
    let index = vec![1, 2, 3, 4, 5];
    let values = words(&[1.0, 2.5, 3.0, 4.0, 3.0]);
    let ts = TimeSeries::new(index, values);
    let d = ts.diff(float_difference);
    assert_eq!(d.values(), &words(&[1.5, 0.5, 1.0, -1.0]));
    let mut stamps = Vec::new();
    let mut cursor = d.index().iter();
    while let Some(t) = cursor.next() {
        stamps.push(t);
    }
    assert_eq!(stamps, vec![2, 3, 4, 5]);
}

#[test]
fn test_diff_short_series() {
    let ts = TimeSeries::new(vec![7], words(&[1.0]));
    assert_eq!(ts.diff(float_difference).len(), 0);
    assert_eq!(TimeSeries::empty().diff(float_difference).len(), 0);
}

#[test]
fn test_merge_with_empty_is_identity() {
    let data = vec![point(10, 1.0), point(20, 2.5), point(30, 3.2)];
    let ts = TimeSeries::from_datapoints(data);
    assert_eq!(ts.merge(&TimeSeries::empty()), ts);
    assert_eq!(TimeSeries::empty().merge(&ts), ts);
}

#[test]
fn test_merge_with_itself_collapses() {
    let data = vec![point(10, 1.0), point(20, 2.5), point(30, 3.2)];
    let ts = TimeSeries::from_datapoints(data);
    assert_eq!(ts.merge(&ts), ts);
}

#[test]
fn test_iteration_roundtrip() {
    let index = vec![2, 4, 8, 16];
    let values = words(&[0.5, 1.5, 2.5, 3.5]);
    let ts = TimeSeries::new(index, values);
    let mut cursor = ts.iter();
    let mut collected = Vec::new();
    while let Some(dp) = cursor.next() {
        collected.push(dp);
    }
    let rebuilt = TimeSeries::from_datapoints(collected);
    assert_eq!(rebuilt, ts);
}

#[test]
fn test_iter_restartable() {
    let ts = TimeSeries::new(vec![1, 2], words(&[1.0, 2.0]));
    let mut first = ts.iter();
    let mut count_first: usize = 0;
    while first.next().is_some() {
        count_first += 1;
    }
    let mut second = ts.iter();
    let mut count_second: usize = 0;
    while second.next().is_some() {
        count_second += 1;
    }
    assert_eq!(count_first, 2);
    assert_eq!(count_second, 2);
}

fn double_word(v: u64) -> u64 {
    (2.0 * f64::from_bits(v)).to_bits()
}

#[test]
fn test_map_values() {
    let ts = TimeSeries::new(vec![1, 2, 3], words(&[1.0, 2.0, 3.0]));
    let doubled = ts.map_values(double_word);
    assert_eq!(doubled.values(), &words(&[2.0, 4.0, 6.0]));
    assert_eq!(doubled.index().len(), 3);
}

fn halve_on_even_stamp(timestamp: i64, value: u64) -> u64 {
    if timestamp % 2 == 0 {
        (f64::from_bits(value) / 2.0).to_bits()
    } else {
        value
    }
}

#[test]
fn test_map_with_timestamps() {
    let ts = TimeSeries::new(vec![1, 2, 3], words(&[1.0, 2.0, 3.0]));
    let mapped = ts.map(halve_on_even_stamp);
    assert_eq!(mapped.values(), &words(&[1.0, 1.0, 3.0]));
}

#[test]
fn test_from_timestamp_flat_resolution() {
    // A non-positive resolution gives a grid that never increases, so only
    // the first point survives normalization.
    let ts = TimeSeries::from_timestamp(5, 0, words(&[1.0, 2.0, 3.0]));
    assert_eq!(ts.len(), 1);
    assert_eq!(ts.index().index_at(0), Some(5));
}

#[test]
fn test_to_series() {
    let xs = DateTimeIndex::new(vec![1, 2, 3, 4]);
    let ts = xs.to_series();
    assert_eq!(ts.len(), 4);
    assert_eq!(ts.index().index_at(2), Some(3));
    assert_eq!(ts.values()[2], 3u64);
}

#[test]
fn test_series_equality_sees_values() {
    let a = TimeSeries::new(vec![1, 2], words(&[1.0, 2.0]));
    let b = TimeSeries::new(vec![1, 2], words(&[1.0, 2.5]));
    assert!(a != b);
    let c = TimeSeries::new(vec![1, 2], words(&[1.0, 2.0]));
    assert!(a == c);
}

#[test]
fn test_clone_keeps_points() {
    let a = TimeSeries::new(vec![1, 2], words(&[1.0, 2.0]));
    let b = a.clone();
    assert_eq!(a, b);
}

#[test]
fn test_try_new_accepts_ordered_input() {
    let ts = TimeSeries::try_new(vec![1, 2, 3], words(&[1.0, 2.0, 3.0])).unwrap();
    assert_eq!(ts.len(), 3);
    assert_eq!(ts.nth(2), Some(point(3, 3.0)));
}

#[test]
fn test_try_new_rejects_length_mismatch() {
    let r = TimeSeries::try_new(vec![1, 2, 3], words(&[1.0, 2.0]));
    assert_eq!(r, Err(SeriesError::LengthMismatch));
}

#[test]
fn test_try_new_rejects_non_monotonic() {
    let r = TimeSeries::try_new(vec![1, 3, 2], words(&[1.0, 2.0, 3.0]));
    assert_eq!(r, Err(SeriesError::NonMonotonicIndex));
    let equal = TimeSeries::try_new(vec![1, 2, 2], words(&[1.0, 2.0, 3.0]));
    assert_eq!(equal, Err(SeriesError::NonMonotonicIndex));
}
