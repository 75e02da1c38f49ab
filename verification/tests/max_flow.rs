use graph_flow::max_flow::{ford_fulkerson, min_cut, min_cut_value};
use graph_flow::FlowNetwork;

#[test]
fn test_simple_max_flow() {
    let mut net = FlowNetwork::new(2);
    net.add_edge(0, 1, 10);
    let result = ford_fulkerson(&net, 0, 1);
    assert!((result.max_flow as f64 - 10.0).abs() < 1e-6);
}

#[test]
fn test_path_flow() {
    let mut net = FlowNetwork::new(4);
    net.add_edge(0, 1, 10);
    net.add_edge(1, 2, 5);
    net.add_edge(2, 3, 10);
    let result = ford_fulkerson(&net, 0, 3);
    assert!((result.max_flow as f64 - 5.0).abs() < 1e-6);
}

#[test]
fn max_flow_test_parallel_paths() {
    let mut net = FlowNetwork::new(4);
    net.add_edge(0, 1, 10);
    net.add_edge(0, 2, 10);
    net.add_edge(1, 3, 10);
    net.add_edge(2, 3, 10);
    let result = ford_fulkerson(&net, 0, 3);
    assert!((result.max_flow as f64 - 20.0).abs() < 1e-6);
}

#[test]
fn test_bottleneck() {
    let mut net = FlowNetwork::new(4);
    net.add_edge(0, 1, 100);
    net.add_edge(1, 2, 1);
    net.add_edge(2, 3, 100);
    let result = ford_fulkerson(&net, 0, 3);
    assert!((result.max_flow as f64 - 1.0).abs() < 1e-6);
}

#[test]
fn max_flow_test_no_path() {
    let mut net = FlowNetwork::new(3);
    net.add_edge(0, 1, 10);
    let result = ford_fulkerson(&net, 0, 2);
    assert!((result.max_flow as f64).abs() < 1e-6);
}

#[test]
fn test_min_cut_value() {
    let mut net = FlowNetwork::new(4);
    net.add_edge(0, 1, 10);
    net.add_edge(0, 2, 10);
    net.add_edge(1, 3, 10);
    net.add_edge(2, 3, 10);
    let cut = min_cut_value(&net, 0, 3);
    assert!((cut as f64 - 20.0).abs() < 1e-6);
}

#[test]
fn test_min_cut_partition() {
    let mut net = FlowNetwork::new(4);
    net.add_edge(0, 1, 10);
    net.add_edge(0, 2, 10);
    net.add_edge(1, 3, 10);
    net.add_edge(2, 3, 10);
    let (reachable, unreachable, cut_val) = min_cut(&net, 0, 3);
    assert!(reachable.contains(&0));
    assert!(unreachable.contains(&3));
    assert!((cut_val as f64 - 20.0).abs() < 1e-6);
}

#[test]
fn max_flow_test_source_equals_sink() {
    let net = FlowNetwork::new(2);
    let result = ford_fulkerson(&net, 0, 0);
    assert!((result.max_flow as f64).abs() < 1e-6);
}

#[test]
fn test_single_vertex() {
    let net = FlowNetwork::new(1);
    let result = ford_fulkerson(&net, 0, 0);
    assert!((result.max_flow as f64).abs() < 1e-6);
}

#[test]
fn flows_report_both_slots_of_a_saturated_edge() {
    let mut net = FlowNetwork::new(2);
    net.add_edge(0, 1, 10);
    let result = ford_fulkerson(&net, 0, 1);
    assert_eq!(result.max_flow, 10);
    assert_eq!(result.flows, vec![(0, 1, 10), (1, 0, -10)]);
}

#[test]
fn classic_network_value() {
    let mut net = FlowNetwork::new(6);
    net.add_edge(0, 1, 16);
    net.add_edge(0, 2, 13);
    net.add_edge(1, 2, 10);
    net.add_edge(1, 3, 12);
    net.add_edge(2, 1, 4);
    net.add_edge(2, 4, 14);
    net.add_edge(3, 2, 9);
    net.add_edge(3, 5, 20);
    net.add_edge(4, 3, 7);
    net.add_edge(4, 5, 4);
    assert_eq!(ford_fulkerson(&net, 0, 5).max_flow, 23);
    assert_eq!(min_cut_value(&net, 0, 5), 23);
}

#[test]
fn min_cut_of_trivial_query_lists_every_vertex() {
    let net = FlowNetwork::new(3);
    let (reachable, unreachable, value) = min_cut(&net, 1, 1);
    assert!(reachable.is_empty());
    assert_eq!(unreachable, vec![0, 1, 2]);
    assert_eq!(value, 0);
}

#[test]
fn min_cut_single_edge_partition() {
    let mut net = FlowNetwork::new(3);
    net.add_edge(0, 1, 5);
    net.add_edge(1, 2, 3);
    let (reachable, unreachable, value) = min_cut(&net, 0, 2);
    assert_eq!(value, 3);
    assert!(reachable.contains(&0));
    assert!(unreachable.contains(&2));
    assert_eq!(reachable.len() + unreachable.len(), 3);
}

#[test]
fn network_accessors() {
    let mut net = FlowNetwork::new(3);
    assert_eq!(net.vertex_count(), 3);
    net.add_edge(0, 2, 7);
    let adj = net.adjacency();
    assert_eq!(adj[0], vec![(2, 7, 0)]);
    assert_eq!(adj[2], vec![(0, 0, 0)]);
    net.add_edge(1, 1, 4);
    assert_eq!(net.adjacency()[1], vec![(1, 4, 1), (1, 0, 0)]);
    net.adjacency_mut()[0][0].1 = 9;
    assert_eq!(net.adjacency()[0][0].1, 9);
}

#[test]
fn min_cut_is_minimum_on_a_path() {
    let mut net = FlowNetwork::new(3);
    net.add_edge(0, 1, 10);
    net.add_edge(1, 2, 5);
    let (s, t, c) = min_cut(&net, 0, 2);
    assert_eq!(s, vec![0, 1]);
    assert_eq!(t, vec![2]);
    assert_eq!(c, 5);
}

#[test]
fn parallel_edges_report_their_own_flow() {
    let mut net = FlowNetwork::new(3);
    net.add_edge(0, 1, 5);
    net.add_edge(0, 1, 3);
    net.add_edge(1, 2, 6);
    let result = ford_fulkerson(&net, 0, 2);
    assert_eq!(result.max_flow, 6);
    let out_of_source: i64 = result.flows.iter().filter(|e| e.0 == 0 && e.1 == 1 && e.2 > 0).map(|e| e.2).sum();
    assert_eq!(out_of_source, 6);
}
