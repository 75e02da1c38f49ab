use graph_flow::edmonds_karp::{edge_connectivity, edmonds_karp, min_cut_edmonds_karp};
use graph_flow::FlowNetwork;

#[test]
fn test_simple_flow() {
    let mut net = FlowNetwork::new(2);
    net.add_edge(0, 1, 10);
    let flow = edmonds_karp(&net, 0, 1);
    assert!((flow as f64 - 10.0).abs() < 1e-6);
}

#[test]
fn test_path_bottleneck() {
    let mut net = FlowNetwork::new(4);
    net.add_edge(0, 1, 10);
    net.add_edge(1, 2, 5);
    net.add_edge(2, 3, 10);
    let flow = edmonds_karp(&net, 0, 3);
    assert!((flow as f64 - 5.0).abs() < 1e-6);
}

#[test]
fn edmonds_karp_test_parallel_paths() {
    let mut net = FlowNetwork::new(4);
    net.add_edge(0, 1, 10);
    net.add_edge(0, 2, 10);
    net.add_edge(1, 3, 10);
    net.add_edge(2, 3, 10);
    let flow = edmonds_karp(&net, 0, 3);
    assert!((flow as f64 - 20.0).abs() < 1e-6);
}

#[test]
fn edmonds_karp_test_no_path() {
    let mut net = FlowNetwork::new(3);
    net.add_edge(0, 1, 10);
    let flow = edmonds_karp(&net, 0, 2);
    assert!((flow as f64).abs() < 1e-6);
}

#[test]
fn test_min_cut() {
    let mut net = FlowNetwork::new(4);
    net.add_edge(0, 1, 10);
    net.add_edge(0, 2, 10);
    net.add_edge(1, 3, 10);
    net.add_edge(2, 3, 10);
    let (reachable, flow) = min_cut_edmonds_karp(&net, 0, 3);
    assert!(reachable.contains(&0));
    assert!((flow as f64 - 20.0).abs() < 1e-6);
}

#[test]
fn test_edge_connectivity() {
    let mut net = FlowNetwork::new(4);
    net.add_edge(0, 1, 3);
    net.add_edge(0, 2, 2);
    net.add_edge(1, 3, 2);
    net.add_edge(2, 3, 3);
    let ec = edge_connectivity(&net, 0, 3);
    assert_eq!(ec, 4);
}

#[test]
fn test_complex_network() {
    let mut net = FlowNetwork::new(6);
    net.add_edge(0, 1, 16);
    net.add_edge(0, 2, 13);
    net.add_edge(1, 2, 10);
    net.add_edge(1, 3, 12);
    net.add_edge(2, 1, 4);
    net.add_edge(2, 4, 14);
    net.add_edge(3, 2, 9);
    net.add_edge(3, 5, 20);
    net.add_edge(4, 3, 7);
    net.add_edge(4, 5, 4);
    let flow = edmonds_karp(&net, 0, 5);
    assert!((flow as f64 - 23.0).abs() < 1e-3);
}

#[test]
fn edmonds_karp_test_source_equals_sink() {
    let net = FlowNetwork::new(2);
    let flow = edmonds_karp(&net, 0, 0);
    assert!((flow as f64).abs() < 1e-6);
}

#[test]
fn min_cut_side_is_the_residual_reach() {
    let mut net = FlowNetwork::new(4);
    net.add_edge(0, 1, 10);
    net.add_edge(1, 2, 1);
    net.add_edge(2, 3, 10);
    let (reachable, flow) = min_cut_edmonds_karp(&net, 0, 3);
    assert_eq!(flow, 1);
    assert_eq!(reachable, vec![0, 1]);
}

#[test]
fn empty_network_has_no_flow() {
    let net = FlowNetwork::new(0);
    assert_eq!(edmonds_karp(&net, 0, 1), 0);
    let (reachable, flow) = min_cut_edmonds_karp(&net, 0, 1);
    assert!(reachable.is_empty());
    assert_eq!(flow, 0);
    assert_eq!(edge_connectivity(&net, 0, 1), 0);
}

#[test]
fn antiparallel_edges() {
    let mut net = FlowNetwork::new(3);
    net.add_edge(0, 1, 5);
    net.add_edge(1, 0, 5);
    net.add_edge(1, 2, 3);
    assert_eq!(edmonds_karp(&net, 0, 2), 3);
}

#[test]
fn max_flow_algorithms_agree() {
    let mut net = FlowNetwork::new(6);
    net.add_edge(0, 1, 16);
    net.add_edge(0, 2, 13);
    net.add_edge(1, 2, 10);
    net.add_edge(2, 1, 4);
    net.add_edge(1, 3, 12);
    net.add_edge(3, 2, 9);
    net.add_edge(2, 4, 14);
    net.add_edge(4, 3, 7);
    net.add_edge(3, 5, 20);
    net.add_edge(4, 5, 4);
    let ek = edmonds_karp(&net, 0, 5);
    let ff = graph_flow::max_flow::ford_fulkerson(&net, 0, 5);
    let cut = graph_flow::max_flow::min_cut_value(&net, 0, 5);
    assert_eq!(ek, 23);
    assert_eq!(ff.max_flow, ek);
    assert_eq!(cut, ek);
    // No cut is smaller: the cut {0} has capacity 29, the cut {0, 1, 2, 4} capacity 23.
    assert!(ek <= 29);
}

#[test]
fn min_cut_side_when_source_is_sink() {
    let mut net = FlowNetwork::new(4);
    net.add_edge(0, 1, 3);
    net.add_edge(2, 0, 3);
    let (reachable, flow) = min_cut_edmonds_karp(&net, 0, 0);
    assert_eq!(flow, 0);
    assert_eq!(reachable, vec![0, 1]);
}
