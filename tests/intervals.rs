use weather_cache::intervals::CoveredIntervals;
use weather_cache::store::ObservationStore;

fn spans(c: &CoveredIntervals) -> Vec<(i64, i64)> {
    (0..c.len()).map(|i| c.span(i)).collect()
}

#[test]
fn touching_spans_merge() {
    let mut c = CoveredIntervals::new();
    c.insert(10, 20);
    c.insert(30, 40);
    assert_eq!(vec![(10, 20), (30, 40)], spans(&c));
    c.insert(20, 30);
    assert_eq!(vec![(10, 40)], spans(&c));
}

#[test]
fn overlapping_spans_merge() {
    let mut c = CoveredIntervals::new();
    c.insert(50, 60);
    c.insert(10, 20);
    c.insert(30, 40);
    c.insert(15, 55);
    assert_eq!(vec![(10, 60)], spans(&c));
}

#[test]
fn covered_insert_changes_nothing() {
    let mut c = CoveredIntervals::new();
    c.insert(10, 40);
    c.insert(15, 25);
    c.insert(10, 40);
    c.insert(7, 7);
    assert_eq!(vec![(10, 40)], spans(&c));
}

#[test]
fn covers_needs_every_point() {
    let mut c = CoveredIntervals::new();
    c.insert(10, 20);
    c.insert(21, 30);
    assert!(c.covers(10, 20));
    assert!(c.covers(12, 18));
    assert!(!c.covers(10, 21));
    assert!(!c.covers(15, 25));
    assert!(c.covers(100, 100));
    assert!(c.covers(5, 3));
}

#[test]
fn missing_reports_gaps() {
    let mut c = CoveredIntervals::new();
    c.insert(10, 20);
    c.insert(30, 40);
    assert_eq!(vec![(0, 10), (20, 30), (40, 50)], c.missing(0, 50));
    assert_eq!(vec![(20, 25)], c.missing(15, 25));
    assert!(c.missing(12, 18).is_empty());
    assert!(c.missing(18, 12).is_empty());
    assert_eq!(vec![(45, 50)], c.missing(45, 50));
}

#[test]
fn store_lookups() {
    let mut s: ObservationStore<i32> = ObservationStore::new();
    s.insert(100, 1);
    s.insert(50, 2);
    s.insert(200, 3);
    s.insert(100, 4);
    assert_eq!(None, s.last_before(50));
    assert_eq!(Some(2), s.last_before(51));
    assert_eq!(Some(2), s.last_before(100));
    assert_eq!(Some(4), s.last_before(101));
    assert_eq!(Some(4), s.last_before(200));
    assert_eq!(Some(3), s.last_before(201));
    assert_eq!(Some(3), s.last_before(i64::MAX as i128 + 10));
    assert_eq!(Some(4), s.get(100));
    assert_eq!(None, s.get(101));
}
