use topology_checker::graph::{Node, Topology};
use topology_checker::hops::{analyze_hop_stats, HopStats};

// Ids: node1 = 0, node2 = 1, node3 = 2, node4 = 3.
fn create_test_topology() -> (Topology, Vec<Vec<f64>>) {
    let topology = Topology {
        nodes: vec![
            Node { stake: 100, producers: vec![1, 2] },
            Node { stake: 0, producers: vec![2] },
            Node { stake: 200, producers: vec![3] },
            Node { stake: 0, producers: vec![] },
        ],
    };
    let latencies = vec![vec![10.0, 20.0], vec![5.0], vec![15.0], vec![]];
    (topology, latencies)
}

// The latency of each node of each hop, summed along the links through which
// the nodes were first reached.
fn hop_latencies(hops: &[HopStats], links: &[Vec<f64>]) -> Vec<Vec<f64>> {
    let mut result: Vec<Vec<f64>> = vec![vec![0.0]];
    for k in 1..hops.len() {
        let previous = &hops[k - 1];
        let mut level = Vec::new();
        for a in &hops[k].arrivals {
            let parent = previous.nodes_reached[a.from];
            level.push(result[k - 1][a.from] + links[parent][a.edge]);
        }
        result.push(level);
    }
    result
}

fn min(v: &[f64]) -> f64 {
    v.iter().fold(f64::INFINITY, |a, &b| a.min(b))
}

fn max(v: &[f64]) -> f64 {
    v.iter().fold(0.0, |a, &b| f64::max(a, b))
}

fn avg(v: &[f64]) -> f64 {
    v.iter().sum::<f64>() / v.len() as f64
}

fn completion(h: &HopStats, total: usize) -> f64 {
    h.nodes_processed as f64 / total as f64
}

#[test]
fn test_hop_analysis() {
    let (topology, links) = create_test_topology();
    let hop_stats = analyze_hop_stats(&topology, 0);
    let lat = hop_latencies(&hop_stats, &links);

    assert_eq!(hop_stats.len(), 3);

    let hop0 = &hop_stats[0];
    assert_eq!(hop0.hop_number, 0);
    assert_eq!(hop0.nodes_reached.len(), 1);
    assert!(hop0.nodes_reached.contains(&0));
    assert_eq!(completion(hop0, 4), 0.25);
    assert_eq!(min(&lat[0]), 0.0);
    assert_eq!(max(&lat[0]), 0.0);
    assert_eq!(avg(&lat[0]), 0.0);

    let hop1 = &hop_stats[1];
    assert_eq!(hop1.hop_number, 1);
    assert_eq!(hop1.nodes_reached.len(), 2);
    assert!(hop1.nodes_reached.contains(&1));
    assert!(hop1.nodes_reached.contains(&2));
    assert_eq!(completion(hop1, 4), 0.75);
    assert_eq!(min(&lat[1]), 10.0);
    assert_eq!(max(&lat[1]), 20.0);
    assert_eq!(avg(&lat[1]), 15.0);

    let hop2 = &hop_stats[2];
    assert_eq!(hop2.hop_number, 2);
    assert_eq!(hop2.nodes_reached.len(), 1);
    assert!(hop2.nodes_reached.contains(&3));
    assert_eq!(completion(hop2, 4), 1.0);
    assert_eq!(min(&lat[2]), 35.0);
    assert_eq!(max(&lat[2]), 35.0);
    assert_eq!(avg(&lat[2]), 35.0);
}

#[test]
fn test_hop_analysis_isolated_node() {
    let topology = Topology {
        nodes: vec![Node { stake: 100, producers: vec![] }, Node { stake: 0, producers: vec![] }],
    };
    let hop_stats = analyze_hop_stats(&topology, 0);
    let lat = hop_latencies(&hop_stats, &[vec![], vec![]]);

    assert_eq!(hop_stats.len(), 1);
    let hop0 = &hop_stats[0];
    assert_eq!(hop0.hop_number, 0);
    assert_eq!(hop0.nodes_reached.len(), 1);
    assert_eq!(completion(hop0, 2), 0.5);
    assert_eq!(min(&lat[0]), 0.0);
    assert_eq!(max(&lat[0]), 0.0);
    assert_eq!(avg(&lat[0]), 0.0);
}

#[test]
fn test_hop_analysis_cycle() {
    // node1 -> node2 -> node3 -> node1
    let topology = Topology {
        nodes: vec![
            Node { stake: 100, producers: vec![1] },
            Node { stake: 0, producers: vec![2] },
            Node { stake: 0, producers: vec![0] },
        ],
    };
    let links = vec![vec![10.0], vec![20.0], vec![30.0]];
    let hop_stats = analyze_hop_stats(&topology, 0);
    let lat = hop_latencies(&hop_stats, &links);

    assert_eq!(hop_stats.len(), 3);

    let hop0 = &hop_stats[0];
    assert_eq!(hop0.nodes_reached.len(), 1);
    assert_eq!(completion(hop0, 3), 1.0 / 3.0);

    let hop1 = &hop_stats[1];
    assert_eq!(hop1.nodes_reached.len(), 1);
    assert_eq!(completion(hop1, 3), 2.0 / 3.0);
    assert_eq!(min(&lat[1]), 10.0);

    let hop2 = &hop_stats[2];
    assert_eq!(hop2.nodes_reached.len(), 1);
    assert_eq!(completion(hop2, 3), 1.0);
    assert_eq!(min(&lat[2]), 30.0);
}

#[test]
fn hops_record_first_discovery() {
    let (topology, _) = create_test_topology();
    let hops = analyze_hop_stats(&topology, 0);
    assert_eq!(hops[1].nodes_reached, vec![1, 2]);
    // node 3 is reached from node 2, at position 1 of hop 1, through its first producer
    assert_eq!(hops[2].nodes_reached, vec![3]);
    assert_eq!((hops[2].arrivals[0].from, hops[2].arrivals[0].edge), (1, 0));
    // every node appears once over all hops
    let mut all: Vec<usize> = hops.iter().flat_map(|h| h.nodes_reached.clone()).collect();
    all.sort();
    assert_eq!(all, vec![0, 1, 2, 3]);
    assert_eq!(hops.last().unwrap().nodes_processed, 4);
}

#[test]
fn unknown_names_are_reached_but_lead_nowhere() {
    // node 0 lists id 5, which has no node of its own
    let topology = Topology { nodes: vec![Node { stake: 1, producers: vec![5] }] };
    let hops = analyze_hop_stats(&topology, 0);
    assert_eq!(hops.len(), 2);
    assert_eq!(hops[1].nodes_reached, vec![5]);
    // a start without a node yields only itself
    let alone = analyze_hop_stats(&topology, 9);
    assert_eq!(alone.len(), 1);
    assert_eq!(alone[0].nodes_reached, vec![9]);
    assert_eq!(alone[0].nodes_processed, 1);
}
