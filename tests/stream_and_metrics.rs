use sslproxy::config::{StreamProxyConfig, StreamServer, StreamUpstream, StreamUpstreamServer};
use sslproxy::history::{
    aggregate_history, bucket_of, dashboard_stats, DashboardRow, count_keys, estimate_percentile, granularity_for, latency_bucket, top_n, upstream_host,
    HistoryRow,
};
use sslproxy::metrics::{hash_fnv1a_64, MetricsCore, RealtimeAgg, RequestLogInsert, RtSeriesAgg, REQUEST_LOG_QUEUE_CAPACITY};
use sslproxy::rate_limit::{RateLimitConfig, RateLimiter};
use sslproxy::stream::{
    build_ring, parse_duration, select_upstream_server, select_upstream_server_with_failover, session_ttl_ms,
    validate_stream_config, FailMap, StreamConfigError, UdpSessions,
};

fn server(addr: &str) -> StreamUpstreamServer {
    StreamUpstreamServer { addr: addr.to_string(), weight: 1, max_fails: 1, fail_timeout: "30s".to_string() }
}

fn group(consistent: bool, hash_key: &str) -> StreamUpstream {
    StreamUpstream {
        name: "g".to_string(),
        hash_key: hash_key.to_string(),
        consistent,
        servers: vec![server("10.1.0.1:80"), server("10.1.0.2:80"), server("10.1.0.3:80")],
    }
}

fn record(listen: &str, ts: u64, status: i32) -> RequestLogInsert {
    RequestLogInsert {
        timestamp: ts,
        listen_addr: listen.to_string(),
        client_ip: "1.1.1.1".to_string(),
        remote_ip: "1.1.1.1".to_string(),
        method: "GET".to_string(),
        request_path: "/".to_string(),
        request_host: "h".to_string(),
        status_code: status,
        upstream: String::new(),
        latency_us: 1500,
        user_agent: "ua".to_string(),
        referer: "-".to_string(),
        matched_route_id: String::new(),
    }
}

#[test]
fn consistent_hash_failover() {
    let g = group(true, "$remote_addr");
    let mut fails = FailMap::new();
    let a = select_upstream_server_with_failover(&g, "10.0.0.1", &fails, 0, 0).unwrap();
    let b = select_upstream_server_with_failover(&g, "10.0.0.2", &fails, 0, 0).unwrap();
    fails.record_upstream_failure(&g.servers[a].addr, 1, 30, 1000);
    assert!(fails.is_down(&g.servers[a].addr, 1000));
    let a2 = select_upstream_server_with_failover(&g, "10.0.0.1", &fails, 1000, 0).unwrap();
    assert_ne!(a2, a);
    let ring = build_ring(&g.servers);
    assert_eq!(ring.len(), 480);
    let h = hash_fnv1a_64("10.0.0.1");
    let start = ring.iter().position(|(k, _)| *k >= h).unwrap_or(0);
    let expected = (0..ring.len()).map(|s| ring[(start + s) % ring.len()].1).find(|&i| i != a).unwrap();
    assert_eq!(a2, expected);
    if b != a {
        assert_eq!(select_upstream_server_with_failover(&g, "10.0.0.2", &fails, 1000, 0), Some(b));
    }
    fails.record_upstream_success(&g.servers[a].addr);
    assert_eq!(select_upstream_server_with_failover(&g, "10.0.0.1", &fails, 1000, 0), Some(a));
}

#[test]
fn round_robin_probes_past_down_servers() {
    let g = group(false, "none");
    let mut fails = FailMap::new();
    assert_eq!(select_upstream_server_with_failover(&g, "x", &fails, 0, 4), Some(1));
    fails.record_upstream_failure("10.1.0.2:80", 2, 30, 0);
    assert!(!fails.is_down("10.1.0.2:80", 0));
    fails.record_upstream_failure("10.1.0.2:80", 2, 30, 0);
    assert!(fails.is_down("10.1.0.2:80", 29_999));
    assert!(!fails.is_down("10.1.0.2:80", 30_000));
    assert_eq!(select_upstream_server_with_failover(&g, "x", &fails, 10, 4), Some(2));
    assert_eq!(select_upstream_server(&g, "x", 5), 2);
    let empty = StreamUpstream { servers: vec![], ..group(false, "") };
    assert_eq!(select_upstream_server_with_failover(&empty, "x", &fails, 0, 0), None);
}

#[test]
fn durations() {
    assert_eq!(parse_duration("30s"), Some(30));
    assert_eq!(parse_duration(" 5M "), Some(300));
    assert_eq!(parse_duration("2h"), Some(7200));
    assert_eq!(parse_duration("45"), Some(45));
    assert_eq!(parse_duration("+7s"), Some(7));
    assert_eq!(parse_duration("s"), None);
    assert_eq!(parse_duration("1.5s"), None);
    assert_eq!(parse_duration("18446744073709551615h"), None);
    assert_eq!(session_ttl_ms(3), 10_000);
    assert_eq!(session_ttl_ms(600), 600_000);
}

fn stream_cfg() -> StreamProxyConfig {
    StreamProxyConfig {
        enabled: true,
        upstreams: vec![StreamUpstream { name: "g".to_string(), ..group(true, "") }],
        servers: vec![StreamServer {
            enabled: true,
            listen_port: 9000,
            proxy_pass: "g".to_string(),
            proxy_connect_timeout: "300s".to_string(),
            proxy_timeout: "10m".to_string(),
            udp: false,
        }],
    }
}

#[test]
fn stream_config_validation() {
    assert!(validate_stream_config(&stream_cfg()).is_ok());
    let mut dup = stream_cfg();
    dup.servers.push(dup.servers[0].clone());
    assert!(matches!(validate_stream_config(&dup), Err(StreamConfigError::DuplicateListenPort { port: 9000, udp: false })));
    dup.servers[1].udp = true;
    assert!(validate_stream_config(&dup).is_ok());
    let mut missing = stream_cfg();
    missing.servers[0].proxy_pass = "nope".to_string();
    assert!(matches!(validate_stream_config(&missing), Err(StreamConfigError::MissingUpstream { .. })));
    let mut bad_port = stream_cfg();
    bad_port.upstreams[0].servers[0].addr = "host:99999".to_string();
    assert!(matches!(validate_stream_config(&bad_port), Err(StreamConfigError::InvalidServerAddr(_))));
    let mut no_colon = stream_cfg();
    no_colon.upstreams[0].servers[0].addr = "host".to_string();
    assert!(validate_stream_config(&no_colon).is_err());
    let mut bad_timeout = stream_cfg();
    bad_timeout.servers[0].proxy_timeout = "soon".to_string();
    assert!(matches!(validate_stream_config(&bad_timeout), Err(StreamConfigError::InvalidProxyTimeout(_))));
    let mut empty = stream_cfg();
    empty.upstreams[0].servers.clear();
    assert!(matches!(validate_stream_config(&empty), Err(StreamConfigError::UpstreamWithoutServers(_))));
}

#[test]
fn udp_sessions() {
    let mut s = UdpSessions::new();
    s.touch("c1", "u1", 1000);
    s.touch("c2", "u2", 2000);
    s.touch("c1", "u2", 5000);
    let mut c = s.clients_of("u2");
    c.sort();
    assert_eq!(c, vec!["c1".to_string(), "c2".to_string()]);
    s.sweep(13_000, 10_000);
    assert_eq!(s.clients_of("u2"), vec!["c1".to_string()]);
}

#[test]
fn rate_limit_rps1_burst2() {
    let mut rl = RateLimiter::new(RateLimitConfig { enabled: true, requests_per_second: 1, burst_size: 2, ban_seconds: 60 });
    assert_eq!(rl.check("1.2.3.4", 0), (true, false));
    assert_eq!(rl.check("1.2.3.4", 10), (true, false));
    assert_eq!(rl.check("1.2.3.4", 20), (false, true));
    assert_eq!(rl.check("5.6.7.8", 20), (true, false));
    assert_eq!(rl.check("1.2.3.4", 1020), (true, false));
    let mut off = RateLimiter::new(RateLimitConfig::default());
    assert_eq!(off.check("1.2.3.4", 0), (true, false));
    rl.cleanup(700_000);
    assert!(rl.buckets.is_empty());
}

#[test]
fn fnv_values() {
    assert_eq!(hash_fnv1a_64(""), 14695981039346656037);
    assert_eq!(hash_fnv1a_64("a"), 0xaf63dc4c8601ec8c);
}

#[test]
fn metrics_conservation_and_backpressure() {
    let mut m = MetricsCore::new();
    let statuses = [200, 204, 301, 404, 500, 503, 0, 101];
    for (i, s) in statuses.iter().enumerate() {
        m.enqueue(record(if i % 2 == 0 { ":8080" } else { "" }, 1000 + i as u64, *s));
    }
    let mut total = 0;
    let mut classes = [0u64; 5];
    for shard in &m.shards {
        for l in &shard.labels {
            if l.label == "global" {
                for b in &l.per_sec.buckets {
                    assert_eq!(b.s2xx + b.s3xx + b.s4xx + b.s5xx + b.s0, b.count);
                    total += b.count;
                    classes[0] += b.s2xx;
                    classes[1] += b.s3xx;
                    classes[2] += b.s4xx;
                    classes[3] += b.s5xx;
                    classes[4] += b.s0;
                }
            }
        }
    }
    assert_eq!(total, 8);
    assert_eq!(classes, [2, 1, 1, 2, 2]);
    assert_eq!(m.queue.len(), 8);
    let drained = m.drain(5);
    assert_eq!(drained.len(), 5);
    assert_eq!(drained[0].status_code, 200);
    assert_eq!(m.queue.len(), 3);
}

#[test]
fn metrics_queue_drops_when_full() {
    let mut m = MetricsCore::new();
    for i in 0..REQUEST_LOG_QUEUE_CAPACITY + 3 {
        m.enqueue(record(":1", (i % 100) as u64, 200));
    }
    assert_eq!(m.queue.len(), REQUEST_LOG_QUEUE_CAPACITY);
    assert_eq!(m.dropped, 3);
}

#[test]
fn retention_trims_old_buckets() {
    let mut s = RtSeriesAgg::new();
    s.add(10, 200, 5);
    s.add(50_000, 200, 5);
    s.trim_older_than(50_000 - 43_200);
    assert_eq!(s.buckets.len(), 1);
    assert_eq!(s.buckets[0].ts, 50_000);
    let mut m = MetricsCore::new();
    m.enqueue(record("", 10, 200));
    m.enqueue(record("", 100_000, 200));
    for shard in &m.shards {
        for l in &shard.labels {
            assert!(l.per_sec.buckets.iter().all(|b| b.ts + 43_200 >= 100_000));
            assert!(l.per_min.buckets.iter().all(|b| b.ts + 86_400 >= 100_000));
        }
    }
}

#[test]
fn bucket_average_rounds() {
    let mut s = RtSeriesAgg::new();
    s.add(60, 200, 1000);
    s.add(60, 200, 1001);
    assert_eq!(s.buckets[0].avg_latency_e4(), 10005);
    assert_eq!(s.buckets[0].latency_max_us, 1001);
}

#[test]
fn historical_helpers() {
    assert_eq!(granularity_for(10, 10), None);
    assert_eq!(granularity_for(0, 3599), Some(1));
    assert_eq!(granularity_for(0, 3600), Some(60));
    assert_eq!(granularity_for(0, 48 * 3600), Some(300));
    assert_eq!(bucket_of(125, 60), 120);
    assert_eq!(latency_bucket(4_999), 0);
    assert_eq!(latency_bucket(5_000), 1);
    assert_eq!(latency_bucket(2_000_000), 11);
    let mut h = vec![0u64; 12];
    h[0] = 90;
    h[5] = 9;
    h[11] = 1;
    assert_eq!(estimate_percentile(&h, 500), 25);
    assert_eq!(estimate_percentile(&h, 950), 1250);
    assert_eq!(estimate_percentile(&h, 995), 30000);
    assert_eq!(estimate_percentile(&vec![0; 12], 500), 0);
    assert_eq!(upstream_host("https://www.example.com/path?q"), "example.com");
    assert_eq!(upstream_host("http://10.0.0.1:8080"), "10.0.0.1:8080");
}

#[test]
fn historical_aggregation() {
    let row = |ts: u64, status: i32, lat: u64, up: &str, path: &str| HistoryRow {
        timestamp: ts,
        status_code: status,
        latency_us: lat,
        upstream: up.to_string(),
        request_path: path.to_string(),
    };
    let rows = vec![
        row(60, 200, 1_000, "https://www.a.com/x", "/ok"),
        row(61, 500, 30_000, "http://b.com", "/bad"),
        row(130, 404, 3_000_000, "http://b.com/y", "/bad"),
        row(170, 200, 1_000, "https://www.a.com", "/ok"),
    ];
    let r = aggregate_history(&rows, 60);
    let ts: Vec<u64> = r.series.buckets.iter().map(|b| b.ts).collect();
    assert_eq!(ts, vec![60, 120]);
    assert_eq!(r.series.buckets[0].count, 2);
    assert_eq!(r.series.buckets[1].s4xx, 1);
    assert_eq!(r.latency_hist[0], 2);
    assert_eq!(r.latency_hist[3], 1);
    assert_eq!(r.latency_hist[11], 1);
    assert_eq!(r.p50_e1, 25);
    assert_eq!(r.p99_e1, 30000);
    assert_eq!(r.upstream_dist, vec![("a.com".to_string(), 2), ("b.com".to_string(), 2)]);
    assert_eq!(r.top_route_err, vec![("/bad".to_string(), 2)]);
    assert_eq!(r.top_up_err.len(), 2);
    let counts = count_keys(&vec!["x".to_string(), "y".to_string(), "y".to_string(), "z".to_string()]);
    assert_eq!(top_n(counts, 2), vec![("y".to_string(), 2), ("x".to_string(), 1)]);
}

#[test]
fn snapshot_merges_shards() {
    let mut m = MetricsCore::new();
    m.enqueue(record(":9000", 120, 200));
    m.enqueue(record(":8000", 120, 500));
    m.enqueue(record(":9000", 121, 302));
    let snap = m.snapshot();
    assert_eq!(snap.label_order(), vec!["global".to_string(), ":8000".to_string(), ":9000".to_string()]);
    let global = snap.labels.iter().find(|l| l.label == "global").unwrap();
    let series = global.per_sec.to_metrics_series();
    assert_eq!(series.timestamps, vec![120, 121]);
    assert_eq!(series.counts, vec![2, 1]);
    assert_eq!(series.s5xx, vec![1, 0]);
    assert_eq!(series.avg_latency_e4, vec![15000, 15000]);
    assert_eq!(series.max_latency_e4, vec![15000, 15000]);
    let minutes = global.per_min.to_metrics_series();
    assert_eq!(minutes.timestamps, vec![120]);
    assert_eq!(minutes.counts, vec![3]);
}

#[test]
fn insert_trims_every_label_of_the_shard() {
    let mut agg = RealtimeAgg::new();
    agg.add(":a", 10, 200, 1);
    agg.add(":b", 100_000, 200, 1);
    for l in &agg.labels {
        assert!(l.per_sec.buckets.iter().all(|b| b.ts + 43_200 >= 100_000));
        assert!(l.per_min.buckets.iter().all(|b| b.ts + 86_400 >= 100_000));
    }
    let a = agg.labels.iter().find(|l| l.label == ":a").unwrap();
    assert!(a.per_sec.buckets.is_empty());
}

#[test]
fn dashboard_statistics() {
    let row = |ts: u64, status: i32, path: &str, ip: &str, route: &str| DashboardRow {
        timestamp: ts,
        status_code: status,
        latency_us: 2_000,
        request_path: path.to_string(),
        client_ip: ip.to_string(),
        matched_route_id: route.to_string(),
    };
    let rows = vec![
        row(0, 200, "/a", "1.1.1.1", "r1"),
        row(30, 500, "/b", "1.1.1.1", "r2"),
        row(61, 404, "/b", "2.2.2.2", " "),
        row(62, 204, "/a", "3.3.3.3", "r1"),
    ];
    let d = dashboard_stats(&rows, 60);
    assert_eq!(d.total, 4);
    assert_eq!(d.success, 2);
    assert_eq!(d.success_ppm, 500_000);
    assert_eq!(d.series.buckets.len(), 2);
    assert_eq!(d.series.buckets[1].s4xx, 1);
    assert_eq!(d.top_paths, vec![("/a".to_string(), 2), ("/b".to_string(), 2)]);
    assert_eq!(d.top_ips[0], ("1.1.1.1".to_string(), 2));
    assert_eq!(d.top_routes, vec![("r1".to_string(), 2), ("r2".to_string(), 1)]);
    assert_eq!(d.top_err_routes, vec![("r2".to_string(), 1)]);
}
