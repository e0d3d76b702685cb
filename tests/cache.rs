use weather_cache::cache::{QueryError, RangeCache, Step};
use weather_cache::granularity::{granularity, FIVE_MINUTES, MINUTE, ONE_HOUR};
use weather_cache::resample::resample;
use weather_cache::store::ObservationStore;

const SAMPLE_DATA_START: i64 = 1659722400;
const THREE_HOURS: i64 = 3 * ONE_HOUR;

/// Five days of readings, three hours apart, from `SAMPLE_DATA_START`.
fn five_day_forecast() -> Vec<(i64, f64)> {
    let mut out = Vec::new();
    for k in 0..40i64 {
        let temp = if k == 0 { 290.18 } else { 290.0 - (k as f64) * 0.25 };
        out.push((SAMPLE_DATA_START + k * THREE_HOURS, temp));
    }
    out
}

/// Runs queries against a cache, serving fetches from a fixed payload and
/// counting them.
struct Client {
    cache: RangeCache<f64>,
    payload: Result<Vec<(i64, f64)>, ()>,
    remote_calls: usize,
}

impl Client {
    fn new(payload: Result<Vec<(i64, f64)>, ()>) -> Self {
        Client { cache: RangeCache::new(), payload, remote_calls: 0 }
    }

    fn query(&mut self, start: i64, end: i64) -> Result<Vec<Option<f64>>, QueryError> {
        match self.cache.begin_query(start, end) {
            Step::Done(r) => r,
            Step::Fetch(_) => {
                self.remote_calls += 1;
                self.cache.complete_query(start, end, self.payload.clone())
            }
        }
    }
}

#[test]
fn demonstrate_interpolation() {
    let mut client = Client::new(Ok(five_day_forecast()));
    let start = SAMPLE_DATA_START;
    let end = start + 25 * ONE_HOUR;
    let data = client.query(start, end).unwrap();
    assert_eq!(25, data.len());
    assert_eq!(Some(290.18), data[0]);
    assert_eq!(Some(290.18), data[1]);
    assert_eq!(Some(290.18), data[2]);
}

#[test]
fn expect_single_remote_call() {
    let mut client = Client::new(Ok(five_day_forecast()));
    let start = 1659722400;
    let end = start + 3 * 60 * 60;
    for _ in 0..5 {
        let data = client.query(start, end).unwrap();
        assert_eq!(36, data.len());
    }
    assert_eq!(1, client.remote_calls);
}

#[test]
fn expect_single_remote_call_overlapping_ranges() {
    let mut client = Client::new(Ok(five_day_forecast()));
    let start = SAMPLE_DATA_START;
    let end1 = start + 1 * ONE_HOUR;
    let end3 = start + 3 * ONE_HOUR;
    let end25 = start + 25 * ONE_HOUR;
    let data = client.query(start, end25).unwrap();
    assert_eq!(25, data.len());
    let data = client.query(start, end3).unwrap();
    assert_eq!(36, data.len());
    let data = client.query(start, end1).unwrap();
    assert_eq!(60, data.len());
    assert_eq!(1, client.remote_calls);
}

#[test]
fn granularity_boundaries() {
    assert_eq!(MINUTE, granularity(0));
    assert_eq!(MINUTE, granularity(7199));
    assert_eq!(FIVE_MINUTES, granularity(7200));
    assert_eq!(FIVE_MINUTES, granularity(86399));
    assert_eq!(ONE_HOUR, granularity(86400));
    assert_eq!(ONE_HOUR, granularity(u64::MAX));
}

#[test]
fn third_hourly_slot_takes_reading_before_its_timestamp() {
    let payload = vec![
        (SAMPLE_DATA_START, 280.0),
        (SAMPLE_DATA_START + THREE_HOURS, 281.0),
        (SAMPLE_DATA_START + 2 * THREE_HOURS, 282.0),
        (SAMPLE_DATA_START + 40 * THREE_HOURS, 283.0),
    ];
    let mut client = Client::new(Ok(payload));
    let data = client.query(SAMPLE_DATA_START, SAMPLE_DATA_START + 25 * ONE_HOUR).unwrap();
    assert_eq!(25, data.len());
    assert_eq!(Some(280.0), data[0]);
    assert_eq!(Some(280.0), data[1]);
    assert_eq!(Some(280.0), data[2]);
    assert_eq!(Some(281.0), data[3]);
    assert_eq!(Some(281.0), data[5]);
    assert_eq!(Some(282.0), data[6]);
    assert_eq!(Some(282.0), data[24]);
}

#[test]
fn empty_range_needs_no_fetch() {
    let mut client = Client::new(Ok(five_day_forecast()));
    let data = client.query(SAMPLE_DATA_START, SAMPLE_DATA_START).unwrap();
    assert!(data.is_empty());
    assert_eq!(0, client.remote_calls);
}

#[test]
fn invalid_range_fails_without_fetch() {
    let mut client = Client::new(Ok(five_day_forecast()));
    let r = client.query(SAMPLE_DATA_START + 1, SAMPLE_DATA_START);
    assert_eq!(Err(QueryError::InvalidRange), r);
    assert_eq!(0, client.remote_calls);
    let mut cache: RangeCache<f64> = RangeCache::new();
    let r = cache.complete_query(SAMPLE_DATA_START + 1, SAMPLE_DATA_START, Ok(five_day_forecast()));
    assert_eq!(Err(QueryError::InvalidRange), r);
    assert!(cache.fetched_spans().is_empty());
}

#[test]
fn missing_leading_data_is_none() {
    let mut store: ObservationStore<f64> = ObservationStore::new();
    store.insert(SAMPLE_DATA_START + THREE_HOURS - FIVE_MINUTES, 285.5);
    let data = resample(&store, SAMPLE_DATA_START, SAMPLE_DATA_START + THREE_HOURS, FIVE_MINUTES);
    assert_eq!(36, data.len());
    for v in &data[..35] {
        assert_eq!(None, *v);
    }
    assert_eq!(Some(285.5), data[35]);
}

#[test]
fn resample_counts_partial_last_slot() {
    let mut store: ObservationStore<i32> = ObservationStore::new();
    store.insert(0, 7);
    assert_eq!(3, resample(&store, 0, 121, 60).len());
    assert_eq!(2, resample(&store, 0, 120, 60).len());
    assert!(resample(&store, 5, 5, 60).is_empty());
}

#[test]
fn failed_fetch_leaves_cache_unchanged() {
    let mut client = Client::new(Err(()));
    let r = client.query(SAMPLE_DATA_START, SAMPLE_DATA_START + ONE_HOUR);
    assert_eq!(Err(QueryError::RemoteUnavailable), r);
    assert!(client.cache.fetched_spans().is_empty());
    let r = client.query(SAMPLE_DATA_START, SAMPLE_DATA_START + ONE_HOUR);
    assert_eq!(Err(QueryError::RemoteUnavailable), r);
    assert_eq!(2, client.remote_calls);
}

#[test]
fn empty_payload_is_an_error() {
    let mut client = Client::new(Ok(Vec::new()));
    let r = client.query(SAMPLE_DATA_START, SAMPLE_DATA_START + ONE_HOUR);
    assert_eq!(Err(QueryError::EmptyPayload), r);
    assert!(client.cache.fetched_spans().is_empty());
    assert_eq!(None, client.cache.observation_at(SAMPLE_DATA_START));
}

#[test]
fn range_beyond_payload_is_unavailable() {
    let mut client = Client::new(Ok(five_day_forecast()));
    let r = client.query(SAMPLE_DATA_START, SAMPLE_DATA_START + 6 * 24 * ONE_HOUR);
    assert_eq!(Err(QueryError::RangeUnavailable), r);
    assert_eq!(vec![(SAMPLE_DATA_START, SAMPLE_DATA_START + 39 * THREE_HOURS)], client.cache.fetched_spans());
    assert_eq!(Some(290.18), client.cache.observation_at(SAMPLE_DATA_START));
}

#[test]
fn refetch_keeps_latest_value_and_one_span() {
    let mut cache: RangeCache<f64> = RangeCache::new();
    let first = five_day_forecast();
    cache.complete_query(SAMPLE_DATA_START, SAMPLE_DATA_START + ONE_HOUR, Ok(first)).unwrap();
    let second = vec![(SAMPLE_DATA_START, 300.0), (SAMPLE_DATA_START + THREE_HOURS, 301.0), (SAMPLE_DATA_START + THREE_HOURS, 302.0)];
    cache.complete_query(SAMPLE_DATA_START, SAMPLE_DATA_START + ONE_HOUR, Ok(second)).unwrap();
    assert_eq!(Some(300.0), cache.observation_at(SAMPLE_DATA_START));
    assert_eq!(Some(302.0), cache.observation_at(SAMPLE_DATA_START + THREE_HOURS));
    assert_eq!(Some(289.5), cache.observation_at(SAMPLE_DATA_START + 2 * THREE_HOURS));
    assert_eq!(vec![(SAMPLE_DATA_START, SAMPLE_DATA_START + 39 * THREE_HOURS)], cache.fetched_spans());
}

#[test]
fn fetch_reports_only_missing_parts() {
    let mut cache: RangeCache<f64> = RangeCache::new();
    cache.complete_query(SAMPLE_DATA_START, SAMPLE_DATA_START + ONE_HOUR, Ok(five_day_forecast())).unwrap();
    match cache.begin_query(SAMPLE_DATA_START - ONE_HOUR, SAMPLE_DATA_START + ONE_HOUR) {
        Step::Fetch(gaps) => assert_eq!(vec![(SAMPLE_DATA_START - ONE_HOUR, SAMPLE_DATA_START)], gaps),
        Step::Done(_) => panic!("expected a fetch"),
    }
    assert!(matches!(cache.begin_query(SAMPLE_DATA_START, SAMPLE_DATA_START + 2 * ONE_HOUR), Step::Done(Ok(_))));
}

#[test]
fn same_payload_twice_changes_nothing() {
    let mut cache: RangeCache<f64> = RangeCache::new();
    let first = cache.complete_query(SAMPLE_DATA_START, SAMPLE_DATA_START + 25 * ONE_HOUR, Ok(five_day_forecast())).unwrap();
    let spans = cache.fetched_spans();
    let second = cache.complete_query(SAMPLE_DATA_START, SAMPLE_DATA_START + 25 * ONE_HOUR, Ok(five_day_forecast())).unwrap();
    assert_eq!(first, second);
    assert_eq!(spans, cache.fetched_spans());
    assert_eq!(1, spans.len());
    for (ts, temp) in five_day_forecast() {
        assert_eq!(Some(temp), cache.observation_at(ts));
    }
}
