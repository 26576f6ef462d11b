use dewdb::metrics::{Metrics, NodeLoad, RouteStats};

/// Where the clock stands when counting begins.
const NOW: u64 = 5_900_000_000;

const LATENCY_BUCKETS_MS: [f64; 11] = [0.5, 1.0, 2.5, 5.0, 10.0, 25.0, 50.0, 100.0, 250.0, 500.0, 1000.0];

fn quantile_ms(st: &RouteStats, q: f64) -> f64 {
    if st.count == 0 {
        return 0.0;
    }
    let target = (st.count as f64 * q).ceil() as u64;
    match st.quantile_bucket(target) {
        Some(i) => LATENCY_BUCKETS_MS.get(i).copied().unwrap_or(f64::INFINITY),
        None => f64::INFINITY,
    }
}

fn avg_ms(st: &RouteStats) -> f64 {
    if st.count == 0 {
        return 0.0;
    }
    st.nanos_total as f64 / st.count as f64 / 1_000_000.0
}

#[test]
fn latency_histogram_buckets_and_quantiles() {
    let mut st = RouteStats::default();
    for _ in 0..90 { st.observe(400_000, false); }
    for _ in 0..9 { st.observe(30_000_000, false); }
    st.observe(900_000_000, true);

    assert_eq!(st.count, 100);
    assert_eq!(st.errors, 1);
    assert_eq!(st.buckets[0], 90, "0.4ms lands in the 0.5ms bucket");
    assert_eq!(quantile_ms(&st, 0.50), 0.5, "p50 sits in the fast bucket");
    assert_eq!(quantile_ms(&st, 0.95), 50.0, "p95 reflects the slow tail");
    assert_eq!(quantile_ms(&st, 0.99), 50.0);
    assert!((avg_ms(&st) - 12.06).abs() < 0.01, "mean of 90x0.4ms + 9x30ms + 900ms, got {}", avg_ms(&st));

    let empty = RouteStats::default();
    assert_eq!(quantile_ms(&empty, 0.99), 0.0, "an unused route must not divide by zero");
    assert_eq!(avg_ms(&empty), 0.0);
}

#[test]
fn slow_requests_fall_into_the_overflow_bucket() {
    let mut st = RouteStats::default();
    st.observe(5_000_000_000, false);
    assert_eq!(*st.buckets.last().unwrap(), 1, "5s must land in +Inf, not be dropped");
    assert_eq!(quantile_ms(&st, 0.99), f64::INFINITY);
}

#[test]
fn metrics_records_errors_separately_from_traffic() {
    let mut m = Metrics::new(NOW);
    m.observe("GET /x".to_string(), 1_000_000, false);
    m.observe("GET /x".to_string(), 1_000_000, true);
    m.observe("POST /y".to_string(), 1_000_000, false);

    let snap = m.routes_snapshot();
    assert_eq!(snap.len(), 2, "routes are tracked by template, not by URL");
    let x = &snap.iter().find(|(k, _)| k == "GET /x").unwrap().1;
    assert_eq!(x.count, 2);
    assert_eq!(x.errors, 1);
}

#[test]
fn node_load_tracks_active_requests() {
    let mut m = Metrics::new(NOW);
    m.begin_request();
    m.begin_request();
    m.observe("GET /x".to_string(), 8_000_000, false);

    assert_eq!(m.node_load(), NodeLoad { inflight: 2, latency_ewma_us: 8_000 });

    m.end_request();
    m.end_request();
    assert_eq!(m.node_load().inflight, 0);
}

#[test]
fn load_latency_uses_an_ewma() {
    let mut m = Metrics::new(NOW);
    m.observe("GET /x".to_string(), 8_000_000, false);
    m.observe("GET /x".to_string(), 16_000_000, false);
    assert_eq!(m.node_load().latency_ewma_us, 9_000);
}

#[test]
fn a_latency_on_a_bucket_bound_belongs_to_that_bucket() {
    let mut st = RouteStats::default();
    st.observe(500_000, false);
    st.observe(500_001, false);
    st.observe(1_000_000_000, false);
    assert_eq!(st.buckets[0], 1);
    assert_eq!(st.buckets[1], 1);
    assert_eq!(st.buckets[10], 1);
    assert_eq!(st.quantile_bucket(3), Some(10));
    assert_eq!(st.quantile_bucket(4), None);
}

#[test]
fn the_counters_count() {
    let mut m = Metrics::new(NOW);
    m.note_batch(3);
    m.note_batch(9);
    m.note_batch(4);
    assert_eq!(m.batch_counts(), (3, 16));
    assert_eq!(m.max_batch_frames(), 9);
    m.note_gap();
    m.note_divergence();
    m.note_divergence();
    m.note_resync();
    assert_eq!(m.repair_counts(), (1, 2, 1));
    assert!(m.has_room("GET /x", u64::MAX));
    m.observe("GET /x".to_string(), 1, false);
    assert!(!m.has_room("GET /x", u64::MAX));
    m.note_write_rejected();
    assert_eq!(m.writes_rejected(), 1);
}

#[test]
fn uptime_is_measured_from_when_counting_began() {
    let m = Metrics::new(NOW);
    assert_eq!(m.started_at, NOW);
    assert_eq!(m.uptime_secs(NOW), 0);
    assert_eq!(m.uptime_secs(NOW + 7_000_000_000), 7);
    assert_eq!(m.uptime_secs(NOW + 200_000_000), 0, "whole seconds of the difference, not a difference of whole seconds");
    assert_eq!(m.uptime_secs(NOW - 1), 0, "a clock that went back is no uptime");
    assert_eq!(m.node_load(), NodeLoad { inflight: 0, latency_ewma_us: 0 });
    assert!(m.routes_snapshot().is_empty());
}
