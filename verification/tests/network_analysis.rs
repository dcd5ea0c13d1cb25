use topology_checker::graph::{Node, Topology};
use topology_checker::network::{
    analyze_network_stats, bidirectional_count, calculate_network_diameter, clustering_counts,
    stake_isolation_by_node, LocalClustering,
};

// node1 (BP) <-> node2 (Relay) <-> node3 (BP) <-> node4 (Relay), node1 also
// connects to node3 directly. Ids: node1 = 0, node2 = 1, node3 = 2, node4 = 3.
fn create_test_topology() -> Topology {
    Topology {
        nodes: vec![
            Node { stake: 100, producers: vec![1, 2] },
            Node { stake: 0, producers: vec![2] },
            Node { stake: 200, producers: vec![3] },
            Node { stake: 0, producers: vec![] },
        ],
    }
}

fn clustering_coefficient(counts: &[LocalClustering]) -> f64 {
    let mut total = 0.0;
    for c in counts {
        total += c.connections as f64 / c.possible_connections as f64;
    }
    if counts.is_empty() {
        0.0
    } else {
        total / counts.len() as f64
    }
}

#[test]
fn test_network_stats() {
    let topology = create_test_topology();
    let stats = analyze_network_stats(&topology);

    assert_eq!(stats.total_nodes, 4);
    assert_eq!(stats.block_producers, 2);
    assert_eq!(stats.relay_nodes, 2);
    assert_eq!(stats.total_connections, 4);
    assert_eq!(stats.total_connections as f64 / stats.total_nodes as f64, 1.0);
    assert_eq!(stats.network_diameter, 2);
    let coefficient = clustering_coefficient(&stats.clustering);
    assert!(coefficient >= 0.0 && coefficient <= 1.0);
}

#[test]
fn test_clustering_coefficient() {
    let topology = create_test_topology();
    let counts = clustering_counts(&topology);

    // node1: neighbours node2, node3, one link of one pair
    // node2: neighbours node3, node1, one link of one pair
    // node3: neighbours node4, node1, node2, one link of three pairs
    // node4 has one neighbour and is left out
    assert_eq!(counts.len(), 3);
    assert_eq!((counts[0].node, counts[0].connections, counts[0].possible_connections), (0, 1, 1));
    assert_eq!((counts[1].node, counts[1].connections, counts[1].possible_connections), (1, 1, 1));
    assert_eq!((counts[2].node, counts[2].connections, counts[2].possible_connections), (2, 1, 3));
    let coefficient = clustering_coefficient(&counts);
    assert!((coefficient - 0.777).abs() < 0.001);
}

#[test]
fn clustering_counts_both_directions() {
    // node 0 has neighbours 1 and 2, which list each other: two links, one pair
    let topology = Topology {
        nodes: vec![
            Node { stake: 1, producers: vec![1, 2] },
            Node { stake: 1, producers: vec![2] },
            Node { stake: 1, producers: vec![1] },
        ],
    };
    let counts = clustering_counts(&topology);
    assert_eq!((counts[0].node, counts[0].connections, counts[0].possible_connections), (0, 2, 1));
    assert!(counts.iter().all(|c| c.connections <= 2 * c.possible_connections));
}

#[test]
fn diameter_of_fixture_and_chain() {
    assert_eq!(calculate_network_diameter(&create_test_topology()), 2);
    let chain = Topology {
        nodes: vec![
            Node { stake: 1, producers: vec![1] },
            Node { stake: 1, producers: vec![2] },
            Node { stake: 1, producers: vec![3] },
            Node { stake: 1, producers: vec![] },
        ],
    };
    assert_eq!(calculate_network_diameter(&chain), 3);
}

#[test]
fn diameter_without_links_is_zero() {
    let topology = Topology {
        nodes: vec![Node { stake: 5, producers: vec![] }, Node { stake: 0, producers: vec![] }],
    };
    assert_eq!(calculate_network_diameter(&topology), 0);
    assert_eq!(calculate_network_diameter(&Topology { nodes: vec![] }), 0);
}

#[test]
fn diameter_takes_shortest_paths() {
    // 0 -> 1 -> 2 -> 3 and a shortcut 0 -> 3
    let topology = Topology {
        nodes: vec![
            Node { stake: 1, producers: vec![1, 3] },
            Node { stake: 1, producers: vec![2] },
            Node { stake: 1, producers: vec![3] },
            Node { stake: 1, producers: vec![] },
        ],
    };
    assert_eq!(calculate_network_diameter(&topology), 2);
}

#[test]
fn no_critical_nodes_in_fixture() {
    let isolations = stake_isolation_by_node(&create_test_topology());
    assert!(isolations.is_empty());
}

#[test]
fn failure_in_chain_isolates_downstream_stake() {
    let topology = Topology {
        nodes: vec![
            Node { stake: 10, producers: vec![1] },
            Node { stake: 20, producers: vec![2] },
            Node { stake: 30, producers: vec![] },
        ],
    };
    let isolations = stake_isolation_by_node(&topology);
    assert_eq!(isolations.len(), 1);
    assert_eq!(isolations[0].node, 1);
    assert_eq!(isolations[0].isolated_stake, 30);
    let stats = analyze_network_stats(&topology);
    assert_eq!(stats.total_stake, 60);
    assert_eq!(stats.critical_nodes.len(), 1);
    assert!(stats.critical_nodes[0].isolated_stake + 20 <= stats.total_stake);
}

#[test]
fn first_node_failure_starts_from_second() {
    // 1 -> 0 -> 2: when node 0 fails, node 1 cannot reach node 2; when node 2
    // fails, node 0 reaches neither node 1 nor node 2
    let topology = Topology {
        nodes: vec![
            Node { stake: 5, producers: vec![2] },
            Node { stake: 7, producers: vec![0] },
            Node { stake: 11, producers: vec![] },
        ],
    };
    let isolations = stake_isolation_by_node(&topology);
    assert_eq!(isolations.len(), 2);
    assert_eq!((isolations[0].node, isolations[0].isolated_stake), (0, 11));
    assert_eq!((isolations[1].node, isolations[1].isolated_stake), (2, 7));
}

#[test]
fn single_node_isolates_nothing() {
    let topology = Topology { nodes: vec![Node { stake: 42, producers: vec![0] }] };
    assert!(stake_isolation_by_node(&topology).is_empty());
}

#[test]
fn mutual_links_and_self_links() {
    let topology = Topology {
        nodes: vec![
            Node { stake: 1, producers: vec![1] },
            Node { stake: 0, producers: vec![0] },
            Node { stake: 0, producers: vec![2] },
        ],
    };
    assert_eq!(bidirectional_count(&topology), 2);
    let stats = analyze_network_stats(&topology);
    assert_eq!(stats.bidirectional_connections, 2);
    assert_eq!(stats.total_connections, 3);
    assert_eq!(stats.block_producers, 1);
    assert_eq!(stats.relay_nodes, 2);
    assert_eq!(bidirectional_count(&create_test_topology()), 0);
}
