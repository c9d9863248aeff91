use timeseries::index::DateTimeIndex;

#[test]
fn test_increasing() {
    let values = vec![1, 2, 3, 4, 3];
    let index = DateTimeIndex::new(values);
    assert_eq!(index.len(), 5);
}

#[test]
fn test_monotonic_empty() {
    let index = DateTimeIndex::new(vec![]);
    assert!(index.is_monotonic());
}

#[test]
fn test_monotonic_singleton() {
    let index = DateTimeIndex::new(vec![1]);
    assert!(index.is_monotonic());
}

#[test]
fn test_monotonic_allows_equal_neighbours() {
    let index = DateTimeIndex::new(vec![1, 2, 2, 3]);
    assert!(index.is_monotonic());
}

#[test]
fn test_monotonic_detects_decrease() {
    let index = DateTimeIndex::new(vec![1, 2, 1]);
    assert_eq!(index.is_monotonic(), false);
}

#[test]
fn test_unique_distinct() {
    let index = DateTimeIndex::new(vec![1, 2, 3]);
    assert!(index.is_unique());
}

#[test]
fn test_unique_repeated() {
    let index = DateTimeIndex::new(vec![1, 2, 2]);
    assert_eq!(index.is_unique(), false);
}

#[test]
fn test_unique_repeated_apart() {
    let index = DateTimeIndex::new(vec![2, 1, 2]);
    assert_eq!(index.is_unique(), false);
}

#[test]
fn test_sample_rate_mode() {
    let index = DateTimeIndex::new(vec![0, 10, 15, 20, 25, 27]);
    assert_eq!(index.infer_sample_rate(), 5);
}

#[test]
fn test_sample_rate_short() {
    assert_eq!(DateTimeIndex::new(vec![]).infer_sample_rate(), 0);
    assert_eq!(DateTimeIndex::new(vec![42]).infer_sample_rate(), 0);
}

#[test]
fn test_index_at_bounds() {
    let index = DateTimeIndex::new(vec![10, 20, 30]);
    assert_eq!(index.index_at(0), Some(10));
    assert_eq!(index.index_at(2), Some(30));
    assert_eq!(index.index_at(3), None);
}

#[test]
fn test_index_iter_walks_in_order() {
    let index = DateTimeIndex::new(vec![5, 6, 7]);
    let mut cursor = index.iter();
    let mut seen = Vec::new();
    while let Some(t) = cursor.next() {
        seen.push(t);
    }
    assert_eq!(seen, vec![5, 6, 7]);
}

#[test]
fn test_index_equality() {
    let a = DateTimeIndex::new(vec![1, 2, 3]);
    let b = DateTimeIndex::new(vec![1, 2, 3]);
    let c = DateTimeIndex::new(vec![1, 2, 4]);
    assert!(a == b);
    assert!(a != c);
}
