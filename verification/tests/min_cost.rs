use graph_flow::min_cost::{compute_flow_cost, min_cost_flow, CostEdge, MinCostNetwork};

#[test]
fn test_simple_min_cost_flow() {
    let mut net = MinCostNetwork::new(2);
    net.add_edge(0, 1, 10, 1);
    let result = min_cost_flow(&net, 0, 1, 10);
    assert!((result.total_flow as f64 - 10.0).abs() < 1e-6);
    assert!((result.total_cost as f64 - 10.0).abs() < 1e-4);
}

#[test]
fn test_two_paths_cheaper_first() {
    let mut net = MinCostNetwork::new(4);
    net.add_edge(0, 1, 5, 1); // cheap path
    net.add_edge(1, 3, 5, 1);
    net.add_edge(0, 2, 5, 3); // expensive path
    net.add_edge(2, 3, 5, 3);
    let result = min_cost_flow(&net, 0, 3, 10);
    assert!((result.total_flow as f64 - 10.0).abs() < 1e-4);
    // Cost: 5 * 2 (cheap) + 5 * 6 (expensive) = 10 + 30 = 40
    assert!((result.total_cost as f64 - 40.0).abs() < 1e-2);
}

#[test]
fn test_limited_capacity() {
    let mut net = MinCostNetwork::new(3);
    net.add_edge(0, 1, 3, 1);
    net.add_edge(1, 2, 3, 1);
    let result = min_cost_flow(&net, 0, 2, 10);
    assert!((result.total_flow as f64 - 3.0).abs() < 1e-6);
}

#[test]
fn min_cost_test_no_path() {
    let net = MinCostNetwork::new(3);
    let result = min_cost_flow(&net, 0, 2, 10);
    assert!((result.total_flow as f64).abs() < 1e-6);
}

#[test]
fn test_single_edge_zero_cost() {
    let mut net = MinCostNetwork::new(2);
    net.add_edge(0, 1, 5, 0);
    let result = min_cost_flow(&net, 0, 1, 5);
    assert!((result.total_flow as f64 - 5.0).abs() < 1e-6);
    assert!((result.total_cost as f64).abs() < 1e-4);
}

#[test]
fn test_compute_flow_cost() {
    let mut net = MinCostNetwork::new(3);
    net.add_edge(0, 1, 10, 2);
    net.add_edge(1, 2, 10, 3);
    let (flow, cost) = compute_flow_cost(&net, 0, 2);
    assert!((flow as f64 - 10.0).abs() < 1e-4);
    assert!((cost as f64 - 50.0).abs() < 1e-2);
}

#[test]
fn min_cost_target_caps_flow() {
    let mut net = MinCostNetwork::new(2);
    net.add_edge(0, 1, 10, 7);
    let result = min_cost_flow(&net, 0, 1, 4);
    assert_eq!(result.total_flow, 4);
    assert_eq!(result.total_cost, 28);
}

#[test]
fn min_cost_zero_target_sends_nothing() {
    let mut net = MinCostNetwork::new(2);
    net.add_edge(0, 1, 10, 7);
    let result = min_cost_flow(&net, 0, 1, 0);
    assert_eq!(result.total_flow, 0);
    assert_eq!(result.total_cost, 0);
}

#[test]
fn min_cost_source_is_sink() {
    let mut net = MinCostNetwork::new(2);
    net.add_edge(0, 1, 10, 7);
    let result = min_cost_flow(&net, 1, 1, 6);
    assert_eq!(result.total_flow, 6);
    assert_eq!(result.total_cost, 0);
}

#[test]
fn min_cost_prefers_cheap_path_within_target() {
    let mut net = MinCostNetwork::new(4);
    net.add_edge(0, 2, 5, 3);
    net.add_edge(2, 3, 5, 3);
    net.add_edge(0, 1, 5, 1);
    net.add_edge(1, 3, 5, 1);
    let result = min_cost_flow(&net, 0, 3, 5);
    assert_eq!(result.total_flow, 5);
    assert_eq!(result.total_cost, 10);
}

#[test]
fn min_cost_reroutes_through_reverse_edge() {
    // The first shortest path 0-1-2-3 must be partly undone to reach the
    // maximum flow of 2 at the least cost.
    let mut net = MinCostNetwork::new(4);
    net.add_edge(0, 1, 1, 1);
    net.add_edge(0, 2, 1, 5);
    net.add_edge(1, 2, 1, 1);
    net.add_edge(1, 3, 1, 5);
    net.add_edge(2, 3, 1, 1);
    let (flow, cost) = compute_flow_cost(&net, 0, 3);
    assert_eq!(flow, 2);
    assert_eq!(cost, 12);
}

#[test]
fn min_cost_negative_costs() {
    let mut net = MinCostNetwork::new(3);
    net.add_edge(0, 1, 4, -2);
    net.add_edge(1, 2, 4, 1);
    let result = min_cost_flow(&net, 0, 2, 10);
    assert_eq!(result.total_flow, 4);
    assert_eq!(result.total_cost, -4);
}

#[test]
fn min_cost_negative_cycle_stops() {
    // A cycle of negative cost reachable from the source: the search for a
    // shortest path runs into it and the computation stops with nothing sent.
    let mut net = MinCostNetwork::new(3);
    net.add_edge(0, 1, 1, 1);
    net.add_edge(1, 2, 5, -3);
    net.add_edge(2, 1, 5, 1);
    let result = min_cost_flow(&net, 0, 2, 3);
    assert_eq!(result.total_flow, 0);
    assert_eq!(result.total_cost, 0);
}

#[test]
fn min_cost_network_counts_vertices() {
    let net = MinCostNetwork::new(5);
    assert_eq!(net.vertex_count(), 5);
}

#[test]
fn cost_edge_holds_fields() {
    let e = CostEdge { from: 1, to: 2, capacity: 3, cost: -4 };
    let f = e.clone();
    assert_eq!((f.from, f.to, f.capacity, f.cost), (1, 2, 3, -4));
}

#[test]
fn unreachable_negative_cycle_is_ignored() {
    let mut net = MinCostNetwork::new(4);
    net.add_edge(0, 1, 5, 1);
    net.add_edge(2, 3, 5, -5);
    net.add_edge(3, 2, 5, 1);
    let result = min_cost_flow(&net, 0, 1, 5);
    assert_eq!(result.total_flow, 5);
    assert_eq!(result.total_cost, 5);
}
