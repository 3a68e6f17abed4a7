use std::time::{Duration, Instant};

use larql::rebalancer::{
    check_imbalance, check_over_replication, check_under_replication, evict_stale_heartbeats,
    group_by_layer, layer_extremes, rebalance_steps, send_unassign, tick_checks, Check,
    EvictionStep, ImbalanceTracker, LayerGroup, LayerLatency, OverReplicatedRange, RebalanceStep,
    RebalancerConfig, Replica, ServerLatencies, SlowReplica, Unassign,
};

fn server(server_id: &str, model_id: &str, latencies: &[(u32, f32)]) -> ServerLatencies {
    ServerLatencies {
        server_id: server_id.to_string(),
        model_id: model_id.to_string(),
        latencies: latencies
            .iter()
            .map(|&(layer, ms)| LayerLatency { layer, avg_ms: ms.to_bits() })
            .collect(),
    }
}

/// Whether each group's slowest latency, divided by its fastest, is above the threshold.
fn ratios_exceed(groups: &Vec<LayerGroup>, threshold: f32) -> Vec<bool> {
    groups
        .iter()
        .map(|group| match layer_extremes(group) {
            Some((fastest, slowest)) => {
                let min_ms = f32::from_bits(group.replicas[fastest].avg_ms);
                let max_ms = f32::from_bits(group.replicas[slowest].avg_ms);
                max_ms / min_ms > threshold
            }
            None => false,
        })
        .collect()
}

fn tick(
    servers: &Vec<ServerLatencies>,
    cfg: &RebalancerConfig,
    has_available: bool,
    now: u128,
    tracker: &mut ImbalanceTracker,
) -> Vec<SlowReplica> {
    let groups = group_by_layer(servers);
    let exceeds = ratios_exceed(&groups, f32::from_bits(cfg.imbalance_threshold));
    check_imbalance(&groups, &exceeds, has_available, cfg.sustained_window, now, tracker)
}

fn range(model: &str, start: u32, end: u32, least_loaded: Option<&str>) -> OverReplicatedRange {
    OverReplicatedRange {
        model_id: model.to_string(),
        layer_start: start,
        layer_end: end,
        surplus: 1,
        least_loaded: least_loaded.map(str::to_string),
    }
}

#[test]
fn imbalance_tracker_records_and_clears() {
    let started = Instant::now();
    let now = || started.elapsed().as_nanos();
    let mut t = ImbalanceTracker::default();
    let key = ("model".to_string(), 5u32);
    // First record: not sustained yet (window = 1 hour).
    assert!(!t.record(key.clone(), Duration::from_secs(3600).as_nanos(), now()));
    // Clear and re-record: still fresh.
    t.clear(&key);
    assert!(!t.record(key.clone(), Duration::from_secs(3600).as_nanos(), now()));
    // With zero window: sustained immediately.
    let key2 = ("model".to_string(), 6u32);
    assert!(t.record(key2, Duration::from_secs(0).as_nanos(), now()));
}

#[test]
fn rebalancer_config_defaults() {
    let cfg = RebalancerConfig::default();
    assert_eq!(cfg.check_interval, Duration::from_secs(30).as_nanos());
    assert_eq!(f32::from_bits(cfg.imbalance_threshold), 2.0);
    assert_eq!(cfg.stale_heartbeat_timeout, Duration::from_secs(25).as_nanos());
    assert_eq!(cfg.sustained_window, Duration::from_secs(60).as_nanos());
}

#[test]
fn from_cli_derives_sustained_window_from_interval() {
    let cfg = RebalancerConfig::from_cli(15, 2.5f32.to_bits());
    assert_eq!(cfg.check_interval, Duration::from_secs(15).as_nanos());
    assert_eq!(f32::from_bits(cfg.imbalance_threshold), 2.5);
    assert_eq!(cfg.sustained_window, Duration::from_secs(30).as_nanos());
    assert_eq!(cfg.stale_heartbeat_timeout, Duration::from_secs(25).as_nanos());
}

#[test]
fn checks_of_a_tick_run_in_order() {
    assert_eq!(
        tick_checks(),
        vec![
            Check::StaleHeartbeats,
            Check::UnderReplication,
            Check::OverReplication,
            Check::Imbalance,
        ]
    );
}

#[test]
fn over_replication_drops_least_loaded_replica() {
    let plan = check_over_replication(2, vec![range("model-x", 0, 4, Some("idle"))]);
    assert_eq!(plan.len(), 1);
    let Unassign { server_id, msg: u } = &plan[0];
    assert_eq!(server_id, "idle");
    assert_eq!(u.model_id, "model-x");
    assert_eq!(u.layer_start, 0);
    assert_eq!(u.layer_end, 4);
    assert_eq!(u.reason, "over_replicated");
}

#[test]
fn over_replication_skips_ranges_without_a_server() {
    let ranges = vec![
        range("m", 0, 4, Some("a")),
        range("m", 5, 9, None),
        range("n", 0, 4, Some("b")),
    ];
    let plan = check_over_replication(2, ranges);
    let sent: Vec<(&str, &str)> = plan
        .iter()
        .map(|drop| (drop.server_id.as_str(), drop.msg.model_id.as_str()))
        .collect();
    assert_eq!(sent, vec![("a", "m"), ("b", "n")]);
}

#[test]
fn over_replication_does_nothing_without_a_target() {
    assert!(check_over_replication(0, vec![range("m", 0, 4, Some("a"))]).is_empty());
    assert!(check_over_replication(2, vec![]).is_empty());
}

#[test]
fn over_replication_takes_one_replica_per_range_and_tick() {
    let mut wide = range("m", 0, 4, Some("a"));
    wide.surplus = 3;
    let plan = check_over_replication(2, vec![wide, range("m", 5, 9, Some("a"))]);
    let from = |start: u32| plan.iter().filter(|drop| drop.msg.layer_start == start).count();
    assert_eq!((from(0), from(5), from(10)), (1, 1, 0));
}

#[test]
fn under_replication_acts_above_a_target_of_one() {
    assert!(check_under_replication(2));
    assert!(check_under_replication(usize::MAX));
    assert!(!check_under_replication(0));
}

#[test]
fn under_replication_noop_when_target_equals_one() {
    assert!(!check_under_replication(1), "no assignment should fire at target=1");
}

#[test]
fn evict_stale_noop_when_all_fresh() {
    assert!(evict_stale_heartbeats(vec![]).is_empty());
}

#[test]
fn evict_stale_removes_overdue_servers() {
    let steps = evict_stale_heartbeats(vec!["stale".to_string(), "gone".to_string()]);
    assert_eq!(steps.len(), 3);
    assert!(matches!(&steps[0], EvictionStep::Deregister(id) if id == "stale"));
    assert!(matches!(&steps[1], EvictionStep::Deregister(id) if id == "gone"));
    assert!(matches!(&steps[2], EvictionStep::FillAllGaps));
}

#[test]
fn send_unassign_names_one_layer() {
    let msg = send_unassign(true, "m", 7).unwrap();
    assert_eq!(msg.model_id, "m");
    assert_eq!((msg.layer_start, msg.layer_end), (7, 7));
    assert_eq!(msg.reason, "rebalancing");
}

#[test]
fn send_unassign_warns_on_missing_sender() {
    assert!(send_unassign(false, "m", 0).is_none());
}

#[test]
fn check_imbalance_no_op_when_no_available_servers() {
    let cfg = RebalancerConfig::default();
    let mut tracker = ImbalanceTracker::default();
    let servers = vec![server("a", "m", &[(0, 5.0)]), server("b", "m", &[(0, 50.0)])];
    let slow = tick(&servers, &cfg, false, 0, &mut tracker);
    // Tracker stays empty — early return before recording.
    assert!(tracker.is_empty());
    assert!(slow.is_empty());
}

#[test]
fn check_imbalance_records_then_acts_after_sustained_window() {
    // Two replicas with a 10× latency gap on layer 0.
    let servers = vec![server("slow", "m", &[(0, 50.0)]), server("fast", "m", &[(0, 5.0)])];
    // Zero-window config: the first observation immediately becomes
    // sustained, and the rebalancer should send UnassignMsg.
    let cfg = RebalancerConfig {
        check_interval: Duration::from_secs(30).as_nanos(),
        imbalance_threshold: 2.0f32.to_bits(),
        sustained_window: Duration::from_secs(0).as_nanos(),
        stale_heartbeat_timeout: Duration::from_secs(25).as_nanos(),
    };
    let mut tracker = ImbalanceTracker::default();
    let slow = tick(&servers, &cfg, true, 0, &mut tracker);
    assert_eq!(slow.len(), 1);
    assert_eq!(slow[0].server_id, "slow");
    let u = send_unassign(true, &slow[0].key.0, slow[0].key.1).expect("ok payload");
    assert_eq!(u.reason, "rebalancing");
    assert_eq!(u.layer_start, 0);
    assert_eq!(u.layer_end, 0);
}

#[test]
fn gaps_are_filled_behind_requests_to_slow_replicas() {
    let servers = vec![
        server("a", "m", &[(0, 50.0), (1, 5.0)]),
        server("b", "m", &[(0, 5.0), (1, 60.0)]),
    ];
    let cfg = RebalancerConfig { sustained_window: 0, ..RebalancerConfig::default() };
    let mut tracker = ImbalanceTracker::default();
    let steps = rebalance_steps(tick(&servers, &cfg, true, 0, &mut tracker));
    assert_eq!(steps.len(), 3);
    assert!(matches!(&steps[0], RebalanceStep::Unassign(slow) if slow.server_id == "a"));
    assert!(matches!(&steps[1], RebalanceStep::Unassign(slow) if slow.server_id == "b"));
    assert!(matches!(&steps[2], RebalanceStep::FillAllGaps));
    assert!(rebalance_steps(vec![]).is_empty());
}

#[test]
fn check_imbalance_clears_when_balanced() {
    let servers = vec![server("a", "m", &[(0, 5.0)]), server("b", "m", &[(0, 5.5)])];
    let cfg = RebalancerConfig {
        sustained_window: Duration::from_secs(60).as_nanos(),
        ..RebalancerConfig::default()
    };
    let mut tracker = ImbalanceTracker::default();
    // Pre-populate as if an earlier observation flagged the layer; the
    // balanced state on this tick should clear it.
    tracker.record(("m".to_string(), 0), cfg.sustained_window, 0);
    tick(&servers, &cfg, true, 1, &mut tracker);
    assert!(tracker.is_empty(), "balanced layer should clear tracker entry");
}

#[test]
fn imbalance_has_to_last_for_the_window() {
    let servers = vec![server("a", "m", &[(3, 5.0)]), server("b", "m", &[(3, 11.0)])];
    let cfg = RebalancerConfig::default();
    let second = Duration::from_secs(1).as_nanos();
    let mut tracker = ImbalanceTracker::default();
    assert!(tick(&servers, &cfg, true, 10 * second, &mut tracker).is_empty());
    assert!(!tracker.is_empty());
    assert!(tick(&servers, &cfg, true, 40 * second, &mut tracker).is_empty());
    let slow = tick(&servers, &cfg, true, 70 * second, &mut tracker);
    assert_eq!(slow.len(), 1);
    assert_eq!(slow[0].server_id, "b");
    assert_eq!(slow[0].key, ("m".to_string(), 3));
    // Acted on, so forgotten: the next tick starts anew.
    assert!(tracker.is_empty());
    assert!(tick(&servers, &cfg, true, 100 * second, &mut tracker).is_empty());
}

#[test]
fn a_balanced_reading_breaks_an_imbalance() {
    let uneven = vec![server("a", "m", &[(0, 5.0)]), server("b", "m", &[(0, 11.0)])];
    let even = vec![server("a", "m", &[(0, 5.0)]), server("b", "m", &[(0, 10.0)])];
    let cfg = RebalancerConfig::default();
    let second = Duration::from_secs(1).as_nanos();
    let mut tracker = ImbalanceTracker::default();
    assert!(tick(&uneven, &cfg, true, 0, &mut tracker).is_empty());
    // A ratio of exactly two is within the threshold.
    assert!(tick(&even, &cfg, true, 30 * second, &mut tracker).is_empty());
    assert!(tick(&uneven, &cfg, true, 60 * second, &mut tracker).is_empty());
    assert!(tick(&uneven, &cfg, true, 119 * second, &mut tracker).is_empty());
    assert_eq!(tick(&uneven, &cfg, true, 120 * second, &mut tracker).len(), 1);
}

#[test]
fn an_unmeasured_layer_keeps_its_sighting() {
    let uneven = vec![server("a", "m", &[(0, 5.0)]), server("b", "m", &[(0, 11.0)])];
    let cfg = RebalancerConfig::default();
    let second = Duration::from_secs(1).as_nanos();
    for zero in [0.0f32, -0.0, -1.0] {
        let unmeasured = vec![server("a", "m", &[(0, zero)]), server("b", "m", &[(0, 11.0)])];
        let mut tracker = ImbalanceTracker::default();
        assert!(tick(&uneven, &cfg, true, 0, &mut tracker).is_empty());
        assert!(tick(&unmeasured, &cfg, true, 30 * second, &mut tracker).is_empty());
        assert_eq!(tick(&uneven, &cfg, true, 60 * second, &mut tracker).len(), 1);
    }
}

#[test]
fn a_layer_left_with_one_replica_is_forgotten() {
    let uneven = vec![server("a", "m", &[(0, 5.0)]), server("b", "m", &[(0, 11.0)])];
    let alone = vec![server("a", "m", &[(0, 5.0)])];
    let cfg = RebalancerConfig::default();
    let mut tracker = ImbalanceTracker::default();
    tick(&uneven, &cfg, true, 0, &mut tracker);
    assert!(!tracker.is_empty());
    tick(&alone, &cfg, true, 1, &mut tracker);
    assert!(tracker.is_empty());
}

#[test]
fn layers_without_measurements_are_kept() {
    let cfg = RebalancerConfig::default();
    let mut tracker = ImbalanceTracker::default();
    tracker.record(("other".to_string(), 0), cfg.sustained_window, 0);
    let even = vec![server("a", "m", &[(0, 5.0)]), server("b", "m", &[(0, 5.0)])];
    tick(&even, &cfg, true, 1, &mut tracker);
    assert!(!tracker.is_empty());
    tracker.clear(&("other".to_string(), 0));
    assert!(tracker.is_empty());
}

#[test]
fn layers_are_judged_alone_whatever_their_order() {
    let cfg = RebalancerConfig { sustained_window: 0, ..RebalancerConfig::default() };
    let forth = vec![
        server("a", "m", &[(0, 5.0), (1, 5.0)]),
        server("b", "m", &[(1, 6.0), (0, 50.0)]),
        server("c", "n", &[(0, 1.0)]),
    ];
    let back = vec![
        server("c", "n", &[(0, 1.0)]),
        server("b", "m", &[(0, 50.0), (1, 6.0)]),
        server("a", "m", &[(1, 5.0), (0, 5.0)]),
    ];
    for servers in [forth, back] {
        let mut tracker = ImbalanceTracker::default();
        let slow = tick(&servers, &cfg, true, 0, &mut tracker);
        assert_eq!(slow.len(), 1);
        assert_eq!(slow[0].server_id, "b");
        assert_eq!(slow[0].key, ("m".to_string(), 0));
        assert!(tracker.is_empty());
    }
}

#[test]
fn measurements_are_grouped_by_model_and_layer() {
    let groups = group_by_layer(&vec![
        server("a", "m", &[(0, 1.0), (1, 2.0)]),
        server("b", "n", &[(0, 3.0)]),
        server("c", "m", &[(1, 4.0)]),
    ]);
    let listed: Vec<(&str, u32, Vec<(&str, f32)>)> = groups
        .iter()
        .map(|group| {
            let replicas = group
                .replicas
                .iter()
                .map(|replica| (replica.server_id.as_str(), f32::from_bits(replica.avg_ms)))
                .collect();
            (group.key.0.as_str(), group.key.1, replicas)
        })
        .collect();
    assert_eq!(
        listed,
        vec![
            ("m", 0, vec![("a", 1.0)]),
            ("m", 1, vec![("a", 2.0), ("c", 4.0)]),
            ("n", 0, vec![("b", 3.0)]),
        ]
    );
}

#[test]
fn extremes_are_those_of_a_stable_sort() {
    let columns: [&[f32]; 5] = [
        &[3.0, 1.0, 2.0],
        &[1.0, 1.0, 1.0],
        &[-0.0, 0.0],
        &[2.5, -1.0, 7.0, -1.0, 7.0],
        &[f32::INFINITY, f32::MIN_POSITIVE, f32::NEG_INFINITY],
    ];
    for column in columns {
        let group = LayerGroup {
            key: ("m".to_string(), 0),
            replicas: column
                .iter()
                .map(|ms| Replica { server_id: "s".to_string(), avg_ms: ms.to_bits() })
                .collect(),
        };
        let mut order: Vec<usize> = (0..column.len()).collect();
        order.sort_by(|&a, &b| column[a].partial_cmp(&column[b]).unwrap());
        assert_eq!(
            layer_extremes(&group),
            Some((order[0], order[column.len() - 1])),
            "{column:?}"
        );
    }
}

#[test]
fn one_replica_has_no_extremes() {
    let mut group = LayerGroup { key: ("m".to_string(), 0), replicas: vec![] };
    assert_eq!(layer_extremes(&group), None);
    group.replicas.push(Replica { server_id: "s".to_string(), avg_ms: 1.0f32.to_bits() });
    assert_eq!(layer_extremes(&group), None);
}
