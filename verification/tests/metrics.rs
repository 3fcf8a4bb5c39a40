use hive_tracker::metrics::AppMetrics;

#[test]
fn given_traffic_outside_window_when_snapshotted_then_only_recent_requests_remain() {
    let mut metrics = AppMetrics::new().expect("metrics should initialize");
    metrics.record_traffic_at("web_http", 100, 200, 1_000);
    metrics.record_traffic_at("udp", 10, 20, 1_060);

    let snapshot = metrics.traffic_snapshot_at(1_060);

    assert_eq!(snapshot.http.requests_per_minute, 0);
    assert_eq!(snapshot.udp.requests_per_minute, 1);
    assert_eq!(snapshot.total_requests, 2);
    assert_eq!(snapshot.total_ingress_bytes, 110);
}

#[test]
fn given_torrent_web_and_udp_traffic_when_snapshotted_then_each_is_isolated() {
    let mut metrics = AppMetrics::new().expect("metrics should initialize");
    metrics.record_traffic_at("torrent_http", 100, 200, 1_000);
    metrics.record_traffic_at("web_http", 10, 20, 1_000);
    metrics.record_traffic_at("udp", 1, 2, 1_000);

    let snapshot = metrics.traffic_snapshot_at(1_000);

    assert_eq!(snapshot.torrent_http.ingress_bytes, 100);
    assert_eq!(snapshot.web_http.ingress_bytes, 10);
    assert_eq!(snapshot.http.ingress_bytes, 110);
    assert_eq!(snapshot.udp.ingress_bytes, 1);
    assert_eq!(snapshot.total_requests, 3);
    assert_eq!(snapshot.total_ingress_bytes, 111);
}

#[test]
fn given_requests_when_snapshotted_then_process_lifetime_total_is_returned() {
    let mut metrics = AppMetrics::new().expect("metrics should initialize");
    for _ in 0..120 {
        metrics.record_traffic_at("torrent_http", 1, 1, 1_000);
    }

    assert_eq!(metrics.traffic_snapshot_at(1_000).total_requests, 120);
}

#[test]
fn given_requests_in_rolling_window_when_rate_requested_then_total_rate_is_returned() {
    let mut metrics = AppMetrics::new().expect("metrics should initialize");
    for _ in 0..50 {
        metrics.record_traffic_at("torrent_http", 1, 1, 1_000);
        metrics.record_traffic_at("web_http", 1, 1, 1_000);
        metrics.record_traffic_at("udp", 1, 1, 1_000);
    }

    assert_eq!(
        metrics.traffic_snapshot_at(1_000).requests_in_window() as f64 / 60.0,
        2.5
    );
    assert_eq!(metrics.requests_per_second(), 3);
}

#[test]
fn traffic_from_eight_sources_is_all_counted() {
    let mut metrics = AppMetrics::new().expect("metrics should initialize");
    for _ in 0..8 {
        for _ in 0..1_000 {
            metrics.record_traffic_at("torrent_http", 2, 3, 1_000);
        }
    }

    let snapshot = metrics.traffic_snapshot_at(1_000);
    assert_eq!(snapshot.total_requests, 8_000);
    assert_eq!(snapshot.torrent_http.requests_per_minute, 8_000);
    assert_eq!(snapshot.torrent_http.ingress_bytes, 16_000);
    assert_eq!(snapshot.torrent_http.egress_bytes, 24_000);
}

#[test]
fn a_request_is_in_the_window_for_a_minute() {
    let mut metrics = AppMetrics::new().expect("metrics should initialize");
    metrics.record_traffic_at("udp", 7, 9, 1_000);
    assert_eq!(metrics.traffic_snapshot_at(1_059).udp.requests_per_minute, 1);
    assert_eq!(metrics.traffic_snapshot_at(1_060).udp.requests_per_minute, 0);
    assert_eq!(metrics.traffic_snapshot_at(1_060).total_egress_bytes, 9);
}

#[test]
fn metrics_are_exposed_as_text() {
    let mut metrics = AppMetrics::new().expect("metrics should initialize");
    metrics.request("http", "announce", "ok");
    metrics.request("http", "announce", "ok");
    metrics.announce("udp", "started");
    metrics.set_population(3, 2);
    metrics.record_traffic_at("udp", 40, 98, 1_000);
    let text = String::from_utf8(metrics.encode_at(1_000).expect("metrics should encode"))
        .expect("metrics are text");
    for line in [
        "hive_requests_total{action=\"announce\",protocol=\"http\",result=\"ok\"} 2",
        "hive_announce_events_total{event=\"started\",protocol=\"udp\"} 1",
        "hive_active_peers 3",
        "hive_active_swarms 2",
        "# TYPE hive_active_peers gauge",
    ] {
        assert!(
            text.lines().any(|shown| shown == line),
            "{line} is missing in {text}"
        );
    }
    assert!(metrics.encode().is_ok());
}

#[test]
fn room_is_left_until_a_total_is_full() {
    let mut metrics = AppMetrics::new().expect("metrics should initialize");
    assert!(metrics.has_room(usize::MAX, usize::MAX));
    metrics.record_traffic_at("udp", u64::MAX, 0, 1_000);
    assert!(metrics.has_room(0, usize::MAX));
    assert!(!metrics.has_room(usize::MAX, 0));
}

#[test]
fn a_history_of_requests_and_snapshots_shows_the_last_minute() {
    let mut metrics = AppMetrics::new().expect("metrics should initialize");
    metrics.record_traffic_at("torrent_http", 1, 10, 1_000);
    metrics.record_traffic_at("web_http", 2, 20, 1_001);
    metrics.traffic_snapshot_at(1_030);
    metrics.record_traffic_at("other", 4, 40, 1_040);
    metrics.record_traffic_at("torrent_http", 8, 80, 1_060);
    let snapshot = metrics.traffic_snapshot_at(1_060);
    assert_eq!(snapshot.torrent_http.ingress_bytes, 8);
    assert_eq!(snapshot.web_http.ingress_bytes, 2);
    assert_eq!(snapshot.http.egress_bytes, 100);
    assert_eq!(snapshot.udp.requests_per_minute, 1);
    assert_eq!(snapshot.total_requests, 4);
    assert_eq!(snapshot.total_egress_bytes, 150);
    assert_eq!(metrics.traffic_snapshot_at(1_060), snapshot);
}
