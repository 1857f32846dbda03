use cluster_latency::{Cluster, ClusterError, Destination};
use std::time::Duration;

fn ms(n: u64) -> u64 {
    Duration::from_millis(n).as_nanos() as u64
}

fn cluster() -> Cluster {
    Cluster::new(
        vec![("A", 2), ("B", 2), ("C", 1)],
        vec![
            ("A", "A", ms(1)),
            ("B", "B", ms(2)),
            ("C", "C", ms(3)),
            ("A", "B", ms(4)),
            ("A", "C", ms(5)),
            ("B", "C", ms(6)),
        ],
    )
}

#[test]
fn test_new() {
    let c = cluster();
    assert_eq!(c.node_count("A"), Some(2));
    assert_eq!(c.node_count("B"), Some(2));
    assert_eq!(c.node_count("C"), Some(1));

    assert_eq!(c.latency("A", "A"), Ok(ms(1)));
    assert_eq!(c.latency("B", "B"), Ok(ms(2)));
    assert_eq!(c.latency("C", "C"), Ok(ms(3)));
    assert_eq!(c.latency("A", "B"), Ok(ms(4)));
    assert_eq!(c.latency("B", "A"), Ok(ms(4)));
    assert_eq!(c.latency("A", "C"), Ok(ms(5)));
    assert_eq!(c.latency("C", "A"), Ok(ms(5)));
    assert_eq!(c.latency("B", "C"), Ok(ms(6)));
    assert_eq!(c.latency("C", "B"), Ok(ms(6)));
}

#[test]
fn test_p51_latency_from_leader() {
    let c = cluster();
    assert_eq!(c.p51_latency_from_leader("A"), Ok(ms(4)));
    assert_eq!(c.p51_latency_from_leader("B"), Ok(ms(4)));
    assert_eq!(c.p51_latency_from_leader("C"), Ok(ms(5)));
}

#[test]
fn test_client_response_time() {
    let c = cluster();
    assert_eq!(
        c.client_response_time("B", Destination::Leader, "B"),
        Ok(ms(12) as u128)
    );
    assert_eq!(
        c.client_response_time("A", Destination::Leader, "B"),
        Ok(ms(16) as u128)
    );
    assert_eq!(
        c.client_response_time("B", Destination::Follower("B"), "B"),
        Ok(ms(16) as u128)
    );
    assert_eq!(
        c.client_response_time("A", Destination::Follower("A"), "B"),
        Ok(ms(18) as u128)
    );
}

#[test]
fn test_destinations() {
    let c = cluster();
    let mut destinations = c.destinations("C").unwrap();
    destinations.sort();
    assert_eq!(
        destinations,
        vec![
            Destination::Leader,
            Destination::Follower("A"),
            Destination::Follower("A"),
            Destination::Follower("B"),
            Destination::Follower("B"),
        ]
    );
    let mut destinations = c.destinations("A").unwrap();
    destinations.sort();
    assert_eq!(
        destinations,
        vec![
            Destination::Leader,
            Destination::Follower("A"),
            Destination::Follower("B"),
            Destination::Follower("B"),
            Destination::Follower("C"),
        ]
    );
}

#[test]
fn destinations_hold_one_leader_and_n_minus_one_followers() {
    let c = cluster();
    for leader in ["A", "B", "C"] {
        let ds = c.destinations(leader).unwrap();
        assert_eq!(ds.len(), 5);
        assert_eq!(ds[0], Destination::Leader);
        assert_eq!(ds.iter().filter(|d| **d == Destination::Leader).count(), 1);
        assert_eq!(ds.iter().filter(|d| **d != Destination::Leader).count(), 4);
    }
}

#[test]
fn destinations_count_followers_per_region() {
    let c = cluster();
    let ds = c.destinations("B").unwrap();
    let count = |r: &'static str| ds.iter().filter(|d| **d == Destination::Follower(r)).count();
    assert_eq!(count("A"), 2);
    assert_eq!(count("B"), 1);
    assert_eq!(count("C"), 1);
}

#[test]
fn destinations_fail_for_leader_without_replicas() {
    let c = Cluster::new(vec![("A", 3), ("Z", 0)], vec![("A", "A", ms(1))]);
    assert_eq!(c.destinations("Z"), Err(ClusterError::InvalidQuorumSize));
    assert_eq!(c.destinations("Q"), Err(ClusterError::InvalidQuorumSize));
    assert_eq!(c.destinations("A").unwrap().len(), 3);
}

#[test]
fn latency_is_the_same_both_ways() {
    let c = cluster();
    for a in ["A", "B", "C"] {
        for b in ["A", "B", "C"] {
            assert_eq!(c.latency(a, b), c.latency(b, a));
        }
    }
}

#[test]
fn later_edge_replaces_earlier_in_both_orders() {
    let c = Cluster::new(
        vec![("A", 1), ("B", 1)],
        vec![("A", "B", ms(4)), ("B", "A", ms(9))],
    );
    assert_eq!(c.latency("A", "B"), Ok(ms(9)));
    assert_eq!(c.latency("B", "A"), Ok(ms(9)));
}

#[test]
fn repeated_region_keeps_last_count() {
    let c = Cluster::new(vec![("A", 2), ("B", 1), ("A", 4)], vec![]);
    assert_eq!(c.node_count("A"), Some(4));
    assert_eq!(c.node_count("B"), Some(1));
    assert_eq!(c.node_count("C"), None);
    assert_eq!(c.regions(), vec!["A", "B"]);
}

#[test]
fn regions_lists_each_region_once() {
    let mut regions = cluster().regions();
    regions.sort();
    assert_eq!(regions, vec!["A", "B", "C"]);
}

#[test]
fn lowering_a_follower_edge_does_not_raise_quorum_latency() {
    let before = cluster();
    let after = Cluster::new(
        vec![("A", 2), ("B", 2), ("C", 1)],
        vec![
            ("A", "A", ms(1)),
            ("B", "B", ms(2)),
            ("C", "C", ms(3)),
            ("A", "B", ms(4)),
            ("A", "C", ms(2)),
            ("B", "C", ms(6)),
        ],
    );
    for leader in ["A", "B", "C"] {
        assert!(
            after.p51_latency_from_leader(leader).unwrap()
                <= before.p51_latency_from_leader(leader).unwrap()
        );
    }
    assert_eq!(after.p51_latency_from_leader("C"), Ok(ms(2)));
}

#[test]
fn missing_edge_is_reported_not_defaulted() {
    let c = Cluster::new(
        vec![("A", 2), ("B", 1)],
        vec![("A", "A", ms(1)), ("B", "B", ms(2))],
    );
    assert_eq!(
        c.p51_latency_from_leader("A"),
        Err(ClusterError::MissingLatencyEdge("A", "B"))
    );
    assert_eq!(c.latency("B", "A"), Err(ClusterError::MissingLatencyEdge("B", "A")));
    assert_eq!(
        c.client_response_time("A", Destination::Leader, "B"),
        Err(ClusterError::MissingLatencyEdge("B", "A"))
    );
}

#[test]
fn missing_client_hop_is_reported() {
    let c = Cluster::new(
        vec![("A", 2), ("B", 1), ("C", 0)],
        vec![("A", "A", ms(1)), ("B", "B", ms(2)), ("A", "B", ms(3))],
    );
    assert_eq!(
        c.client_response_time("C", Destination::Leader, "A"),
        Err(ClusterError::MissingLatencyEdge("C", "A"))
    );
    assert_eq!(
        c.client_response_time("C", Destination::Follower("B"), "A"),
        Err(ClusterError::MissingLatencyEdge("C", "B"))
    );
}

#[test]
fn single_replica_has_no_quorum() {
    let c = Cluster::new(vec![("A", 1)], vec![("A", "A", ms(5))]);
    assert_eq!(c.p51_latency_from_leader("A"), Err(ClusterError::InvalidQuorumSize));
    assert_eq!(
        c.client_response_time("A", Destination::Leader, "A"),
        Err(ClusterError::InvalidQuorumSize)
    );
    assert_eq!(c.destinations("A"), Ok(vec![Destination::Leader]));
}

#[test]
fn five_replicas_in_one_region() {
    let c = Cluster::new(vec![("A", 5)], vec![("A", "A", ms(5))]);
    assert_eq!(c.p51_latency_from_leader("A"), Ok(ms(5)));
    assert_eq!(
        c.client_response_time("A", Destination::Follower("A"), "A"),
        Ok(ms(30) as u128)
    );
}

#[test]
fn quorum_picks_the_kth_fastest_follower() {
    // Nine replicas: the leader waits for four followers.
    let c = Cluster::new(
        vec![("A", 3), ("B", 3), ("C", 3)],
        vec![
            ("A", "A", ms(5)),
            ("B", "B", ms(5)),
            ("C", "C", ms(5)),
            ("B", "C", ms(20)),
            ("A", "B", ms(60)),
            ("C", "A", ms(60)),
        ],
    );
    assert_eq!(c.p51_latency_from_leader("A"), Ok(ms(60)));
    assert_eq!(c.p51_latency_from_leader("B"), Ok(ms(20)));
    assert_eq!(
        c.client_response_time("A", Destination::Follower("C"), "B"),
        Ok(ms(2 * 60 + 2 * 20 + 2 * 20) as u128)
    );
}

#[test]
fn response_time_does_not_overflow_on_large_latencies() {
    let c = Cluster::new(
        vec![("A", 2), ("B", 1)],
        vec![("A", "A", u64::MAX), ("A", "B", u64::MAX), ("B", "B", 0)],
    );
    assert_eq!(c.p51_latency_from_leader("A"), Ok(u64::MAX));
    assert_eq!(
        c.client_response_time("B", Destination::Follower("B"), "A"),
        Ok(4 * (u64::MAX as u128))
    );
}

#[test]
fn all_paths_lists_every_combination() {
    let c = cluster();
    let paths = cluster_latency::all_paths(&c).unwrap();
    // Three clients, three leaders, five destinations each.
    assert_eq!(paths.len(), 45);
    for p in &paths {
        assert_eq!(Ok(p.3), c.client_response_time(p.0, p.1, p.2));
    }
    assert!(paths.contains(&("A", Destination::Follower("A"), "B", ms(18) as u128)));
}

#[test]
fn all_paths_fails_on_missing_edge() {
    let c = Cluster::new(vec![("A", 2), ("B", 1)], vec![("A", "A", ms(1)), ("A", "B", ms(2))]);
    assert!(cluster_latency::all_paths(&c).is_err());
}

#[test]
fn avg_paths_gives_min_max_and_mean() {
    let paths = vec![
        ("A", Destination::Leader, "A", 10u128),
        ("A", Destination::Follower("B"), "A", 30u128),
        ("B", Destination::Leader, "A", 25u128),
    ];
    assert_eq!(cluster_latency::avg_paths(&paths), (10, 30, 21));
}

#[test]
fn round_duration_ms_drops_sub_millisecond_part() {
    assert_eq!(cluster_latency::round_duration_ms(12_345_678), 12_000_000);
    assert_eq!(cluster_latency::round_duration_ms(999_999), 0);
    assert_eq!(cluster_latency::round_duration_ms(5_000_000), 5_000_000);
}

#[test]
fn is_local_follows_destination_region() {
    assert!(cluster_latency::is_local(&("A", Destination::Leader, "A", 1)));
    assert!(!cluster_latency::is_local(&("A", Destination::Leader, "B", 1)));
    assert!(cluster_latency::is_local(&("B", Destination::Follower("B"), "A", 1)));
    assert!(!cluster_latency::is_local(&("B", Destination::Follower("C"), "B", 1)));
}
