use ya_ok_core::relay::{
    allow_packet, cleanup_peers, cleanup_rate_entries, metrics_text,
    route_request, IpAddress, MetricsRoute, PeerEntry, RateEntry, Relay, RelayConfig,
    SocketAddress, Stats, Verdict,
};

fn addr(host: u128, port: u16) -> SocketAddress {
    SocketAddress { ip: IpAddress { v6: false, bits: host }, port }
}

fn targets(v: Verdict) -> Vec<SocketAddress> {
    match v {
        Verdict::Forward(t) => t,
        other => panic!("{:?}", other),
    }
}

#[test]
fn three_peers_hear_each_other() {
    let mut relay = Relay::new(64_000, 200, 300);
    let (a, b, c) = (addr(1, 5000), addr(2, 5000), addr(3, 5000));
    assert_eq!(targets(relay.receive(1, a, 0)), vec![]);
    assert_eq!(targets(relay.receive(1, b, 1)), vec![a]);
    assert_eq!(targets(relay.receive(1, c, 2)), vec![a, b]);
    relay.snapshot(0);

    let mut inbox_a = 0;
    let mut inbox_b = 0;
    let mut inbox_c = 0;
    for (src, now) in [(a, 10u64), (b, 11), (c, 12)] {
        let to = targets(relay.receive(100, src, now));
        assert_eq!(to.len(), 2);
        assert!(!to.contains(&src));
        for t in &to {
            if *t == a {
                inbox_a += 1;
            } else if *t == b {
                inbox_b += 1;
            } else if *t == c {
                inbox_c += 1;
            }
        }
        relay.record_forwarded(to.len() as u64);
    }
    assert_eq!((inbox_a, inbox_b, inbox_c), (2, 2, 2));
    let stats = relay.snapshot(1);
    assert_eq!(stats.received, 3);
    assert_eq!(stats.forwarded, 6);
    assert_eq!(stats.dropped_rate, 0);
    assert_eq!(stats.dropped_size, 0);
    assert_eq!(stats.dropped_peer_limit, 0);
    assert_eq!(stats.active_peers, 3);
    assert_eq!(stats.rate_entries, 3);
    assert_eq!(stats.uptime_secs, 1);
    assert_eq!(relay.stats(), Stats::default());
}

#[test]
fn source_over_its_quota_is_dropped() {
    let mut relay = Relay::new(64_000, 200, 300);
    let (a, b) = (addr(1, 5000), addr(2, 5000));
    relay.receive(10, b, 0);
    relay.snapshot(0);
    let mut forwarded = 0;
    let mut dropped = 0;
    for i in 0..400u64 {
        match relay.receive(100, a, 1_000 + i * 2) {
            Verdict::Forward(to) => {
                assert_eq!(to, vec![b]);
                forwarded += to.len();
                relay.record_forwarded(to.len() as u64);
            }
            Verdict::DroppedRate => dropped += 1,
            other => panic!("{:?}", other),
        }
    }
    assert_eq!(forwarded, 200);
    assert_eq!(dropped, 200);
    let stats = relay.snapshot(2);
    assert_eq!(stats.received, 400);
    assert_eq!(stats.forwarded, 200);
    assert_eq!(stats.dropped_rate, 200);
    assert!(matches!(relay.receive(100, a, 2_000), Verdict::Forward(_)));
}

#[test]
fn quota_is_by_address_not_by_port() {
    let mut rate = Vec::new();
    let ip = IpAddress { v6: false, bits: 9 };
    assert!(allow_packet(&mut rate, ip, 2, 100));
    assert!(allow_packet(&mut rate, ip, 2, 200));
    assert!(!allow_packet(&mut rate, ip, 2, 300));
    assert_eq!(rate, vec![RateEntry { ip, window_start: 100, count: 2 }]);
    assert!(!allow_packet(&mut rate, ip, 2, 1_099));
    assert!(allow_packet(&mut rate, ip, 2, 1_100));
    assert_eq!(rate, vec![RateEntry { ip, window_start: 1_100, count: 1 }]);
    let other = IpAddress { v6: true, bits: 9 };
    assert!(allow_packet(&mut rate, other, 2, 1_100));
    assert_eq!(rate.len(), 2);
    assert!(!allow_packet(&mut rate, other, 0, 5_000));
}

#[test]
fn empty_and_large_datagrams_are_dropped() {
    let mut relay = Relay::new(1_000, 200, 300);
    let a = addr(1, 1);
    assert!(matches!(relay.receive(0, a, 0), Verdict::DroppedSize));
    assert!(matches!(relay.receive(1_001, a, 0), Verdict::DroppedSize));
    assert!(matches!(relay.receive(1_000, a, 0), Verdict::Forward(_)));
    let stats = relay.snapshot(0);
    assert_eq!(stats.received, 3);
    assert_eq!(stats.dropped_size, 2);
    assert_eq!(stats.active_peers, 1);
    assert_eq!(stats.rate_entries, 1);
}

#[test]
fn new_peer_is_dropped_where_the_table_is_full() {
    let mut relay = Relay::new(64_000, 10, 300);
    for i in 0..10_000u32 {
        let v = relay.receive(1, addr(1 + i as u128, 1), 0);
        assert!(matches!(v, Verdict::Forward(_)));
    }
    assert_eq!(relay.peer_count(), 10_000);
    assert!(matches!(relay.receive(1, addr(1_000_000, 1), 0), Verdict::DroppedPeerLimit));
    let known = relay.receive(1, addr(5, 1), 0);
    assert_eq!(targets(known).len(), 9_999);
    assert_eq!(relay.peer_count(), 10_000);
    assert_eq!(relay.snapshot(0).dropped_peer_limit, 1);
}

#[test]
fn peers_that_are_silent_are_forgotten() {
    let mut peers = vec![
        PeerEntry { addr: addr(1, 1), last_seen: 0 },
        PeerEntry { addr: addr(2, 1), last_seen: 1_000 },
        PeerEntry { addr: addr(3, 1), last_seen: 999 },
    ];
    cleanup_peers(&mut peers, 300, 301_000);
    assert_eq!(peers.len(), 1);
    assert_eq!(peers[0].addr, addr(2, 1));
    cleanup_peers(&mut peers, 300, 301_001);
    assert!(peers.is_empty());
}

#[test]
fn old_quotas_are_forgotten() {
    let ip = |n: u128| IpAddress { v6: false, bits: n };
    let mut rate = vec![
        RateEntry { ip: ip(1), window_start: 0, count: 3 },
        RateEntry { ip: ip(2), window_start: 1, count: 3 },
    ];
    cleanup_rate_entries(&mut rate, 60_000);
    assert_eq!(rate, vec![RateEntry { ip: ip(2), window_start: 1, count: 3 }]);
}

#[test]
fn oldest_tenth_is_evicted_above_the_limit() {
    let ip = |n: u128| IpAddress { v6: false, bits: n };
    let mut rate: Vec<RateEntry> = (0..50_010u64)
        .map(|i| RateEntry { ip: ip(i as u128), window_start: 50_010 - i, count: 1 })
        .collect();
    cleanup_rate_entries(&mut rate, 50_011);
    assert_eq!(rate.len(), 50_010 - 5_001);
    assert_eq!(rate[0].window_start, 50_010);
    assert_eq!(rate[rate.len() - 1].window_start, 5_002);
}

#[test]
fn every_thousandth_datagram_sweeps_the_tables() {
    let mut relay = Relay::new(64_000, 5_000, 1);
    let (a, b) = (addr(1, 1), addr(2, 1));
    relay.receive(1, b, 0);
    for i in 0..998u64 {
        assert_eq!(targets(relay.receive(1, a, 2_000 + i)), vec![b]);
    }
    assert_eq!(targets(relay.receive(1, a, 3_500)), vec![]);
    assert_eq!(relay.peer_count(), 1);
}

#[test]
fn idle_relay_sweeps_too() {
    let mut relay = Relay::new(64_000, 200, 300);
    relay.receive(1, addr(1, 1), 0);
    relay.idle(300_000);
    assert_eq!(relay.peer_count(), 1);
    relay.idle(300_001);
    assert_eq!(relay.peer_count(), 0);
}

#[test]
fn settings_give_way_to_defaults() {
    let c = RelayConfig::from_settings(None, None, None, None, None, None, None, None);
    assert_eq!(c.port, 40100);
    assert_eq!(c.max_packet, 64_000);
    assert_eq!(c.rate_limit_pps, 200);
    assert_eq!(c.peer_ttl_secs, 300);
    assert_eq!(c.metrics_interval_secs, 60);
    assert_eq!(c.metrics_port, 9090);
    assert_eq!(c.bind, "0.0.0.0:40100");
    assert_eq!(c.fallback_relay, None);
    let c = RelayConfig::from_settings(
        Some("4000"),
        Some("1500"),
        Some("x"),
        Some(""),
        Some("+5"),
        Some("70000"),
        None,
        Some("relay.example:1"),
    );
    assert_eq!(c.port, 4000);
    assert_eq!(c.max_packet, 1500);
    assert_eq!(c.rate_limit_pps, 200);
    assert_eq!(c.peer_ttl_secs, 300);
    assert_eq!(c.metrics_interval_secs, 5);
    assert_eq!(c.metrics_port, 9090);
    assert_eq!(c.bind, "0.0.0.0:4000");
    assert_eq!(c.fallback_relay.as_deref(), Some("relay.example:1"));
    let c = RelayConfig::from_settings(None, None, None, None, None, None, Some("[::]:1"), None);
    assert_eq!(c.bind, "[::]:1");
}

#[test]
fn requests_are_routed() {
    assert_eq!(route_request("GET", "/"), MetricsRoute::AdminPage);
    assert_eq!(route_request("GET", "/add"), MetricsRoute::AddPage);
    assert_eq!(route_request("GET", "/add?name=x"), MetricsRoute::AddPage);
    assert_eq!(route_request("GET", "/addendum"), MetricsRoute::AddPage);
    assert_eq!(route_request("GET", "/favicon.ico"), MetricsRoute::Favicon);
    assert_eq!(route_request("GET", "/og-image.png"), MetricsRoute::OgImage);
    assert_eq!(route_request("GET", "/health"), MetricsRoute::Health);
    assert_eq!(route_request("GET", "/metrics"), MetricsRoute::Metrics);
    assert_eq!(route_request("GET", "/metrics/json"), MetricsRoute::MetricsJson);
    assert_eq!(route_request("GET", "/metrics/"), MetricsRoute::NotFound);
    assert_eq!(route_request("GET", "/ad"), MetricsRoute::NotFound);
    assert_eq!(route_request("POST", "/metrics"), MetricsRoute::NotFound);
    assert_eq!(route_request("get", "/"), MetricsRoute::NotFound);
}

#[test]
fn counts_are_served_as_text() {
    let stats = Stats {
        received: 3,
        forwarded: 6,
        dropped_rate: 0,
        dropped_size: 10,
        dropped_peer_limit: 200,
        active_peers: 3,
        rate_entries: 4,
        uptime_secs: u64::MAX,
    };
    let text = metrics_text(&stats);
    assert!(text.starts_with(
        "# HELP yaok_relay_received_total Total packets received\n# TYPE yaok_relay_received_total counter\nyaok_relay_received_total 3\n"
    ));
    assert!(text.contains("\nyaok_relay_forwarded_total 6\n"));
    assert!(text.contains("\nyaok_relay_dropped_peer_limit_total 200\n"));
    assert!(text.contains("# TYPE yaok_relay_active_peers gauge\nyaok_relay_active_peers 3\n"));
    assert!(text.ends_with("yaok_relay_uptime_seconds 18446744073709551615\n"));
    assert_eq!(text.lines().count(), 24);
}
