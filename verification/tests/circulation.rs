use graph_flow::circulation::{find_circulation, is_feasible, total_flow, CirculationNetwork};

#[test]
fn test_feasible_circulation() {
    let mut cn = CirculationNetwork::new(4);
    cn.add_edge(0, 1, 2, 5);
    cn.add_edge(1, 2, 1, 4);
    cn.add_edge(2, 3, 2, 6);
    cn.add_edge(3, 0, 1, 3);
    // No demands: just check if circulation exists
    let result = find_circulation(&cn);
    assert!(result.feasible);
}

#[test]
fn test_infeasible_demands() {
    let mut cn = CirculationNetwork::new(2);
    cn.set_demand(0, 10);
    cn.set_demand(1, 5);
    // Demands don't balance
    assert!(!is_feasible(&cn));
}

#[test]
fn test_balanced_demands() {
    let mut cn = CirculationNetwork::new(2);
    cn.set_demand(0, -5); // supply
    cn.set_demand(1, 5); // demand
    cn.add_edge(0, 1, 0, 10);
    let result = find_circulation(&cn);
    assert!(result.feasible, "Should be feasible: {:?}", result);
}

#[test]
fn test_capacity_constraint() {
    let mut cn = CirculationNetwork::new(2);
    cn.set_demand(0, -10);
    cn.set_demand(1, 10);
    cn.add_edge(0, 1, 0, 5); // capacity too low
    assert!(!is_feasible(&cn));
}

#[test]
fn test_lower_bound() {
    let mut cn = CirculationNetwork::new(3);
    cn.add_edge(0, 1, 5, 10);
    cn.add_edge(1, 2, 5, 10);
    cn.add_edge(2, 0, 5, 10);
    let result = find_circulation(&cn);
    assert!(result.feasible);
    // All flows should be at least 5
    for (_, _, f) in &result.flows {
        assert!(*f as f64 >= 5.0 - 1e-6);
    }
}

#[test]
fn test_empty_network() {
    let cn = CirculationNetwork::new(0);
    let result = find_circulation(&cn);
    assert!(result.feasible);
}

#[test]
fn test_is_feasible() {
    let mut cn = CirculationNetwork::new(3);
    cn.add_edge(0, 1, 0, 10);
    cn.add_edge(1, 2, 0, 10);
    cn.add_edge(2, 0, 0, 10);
    assert!(is_feasible(&cn));
}

#[test]
fn unbalanced_demands_give_no_flows_and_minus_one() {
    let mut cn = CirculationNetwork::new(2);
    cn.set_demand(0, 3);
    cn.add_edge(0, 1, 0, 10);
    let result = find_circulation(&cn);
    assert!(!result.feasible);
    assert!(result.flows.is_empty());
    assert_eq!(total_flow(&cn), -1);
}

#[test]
fn total_flow_of_a_cycle_with_lower_bounds() {
    let mut cn = CirculationNetwork::new(3);
    cn.add_edge(0, 1, 5, 10);
    cn.add_edge(1, 2, 5, 10);
    cn.add_edge(2, 0, 5, 10);
    let result = find_circulation(&cn);
    assert_eq!(result.flows, vec![(0, 1, 5), (1, 2, 5), (2, 0, 5)]);
    assert_eq!(total_flow(&cn), 15);
}

#[test]
fn infeasible_capacity_still_reports_flows() {
    let mut cn = CirculationNetwork::new(2);
    cn.set_demand(0, -10);
    cn.set_demand(1, 10);
    cn.add_edge(0, 1, 0, 5);
    let result = find_circulation(&cn);
    assert!(!result.feasible);
    assert_eq!(result.flows.len(), 1);
    assert_eq!(total_flow(&cn), -1);
    assert_eq!(cn.vertex_count(), 2);
}

#[test]
fn feasible_plain_network_meets_demands() {
    let mut cn = CirculationNetwork::new(3);
    cn.set_demand(0, -4);
    cn.set_demand(2, 4);
    cn.add_edge(0, 1, 0, 3);
    cn.add_edge(1, 2, 0, 5);
    cn.add_edge(0, 2, 0, 2);
    let r = find_circulation(&cn);
    assert!(r.feasible);
    let uppers = [3i128, 5, 2];
    let ends = [(0usize, 1usize), (1, 2), (0, 2)];
    let demands = [-4i128, 0, 4];
    for (k, &(u, v, f)) in r.flows.iter().enumerate() {
        assert_eq!((u, v), ends[k]);
        assert!(0 <= f && f <= uppers[k]);
    }
    for w in 0..3usize {
        let inflow: i128 = r.flows.iter().filter(|e| e.1 == w).map(|e| e.2).sum();
        let outflow: i128 = r.flows.iter().filter(|e| e.0 == w).map(|e| e.2).sum();
        assert_eq!(inflow - outflow, demands[w]);
    }
    let sum: i128 = r.flows.iter().map(|e| e.2).sum();
    assert!(total_flow(&cn) <= sum);
    assert_eq!(total_flow(&cn), 6);
    assert!(is_feasible(&cn));
}

#[test]
fn lower_bound_meets_demand() {
    let mut cn = CirculationNetwork::new(2);
    cn.set_demand(0, -5);
    cn.set_demand(1, 5);
    cn.add_edge(0, 1, 5, 10);
    let result = find_circulation(&cn);
    assert!(result.feasible);
    assert_eq!(result.flows, vec![(0, 1, 5)]);
    assert_eq!(total_flow(&cn), 5);
}

#[test]
fn lower_bound_against_demand_is_infeasible() {
    let mut cn = CirculationNetwork::new(2);
    cn.set_demand(0, 5);
    cn.set_demand(1, -5);
    cn.add_edge(0, 1, 5, 10);
    assert!(!is_feasible(&cn));
}

#[test]
fn cycle_with_lower_bounds_balances() {
    let mut cn = CirculationNetwork::new(4);
    cn.add_edge(0, 1, 2, 5);
    cn.add_edge(1, 2, 1, 4);
    cn.add_edge(2, 3, 2, 6);
    cn.add_edge(3, 0, 1, 3);
    let result = find_circulation(&cn);
    assert!(result.feasible);
    for v in 0..4usize {
        let inflow: i128 = result.flows.iter().filter(|e| e.1 == v).map(|e| e.2).sum();
        let outflow: i128 = result.flows.iter().filter(|e| e.0 == v).map(|e| e.2).sum();
        assert_eq!(inflow - outflow, 0);
    }
    for (k, bounds) in [(2, 5), (1, 4), (2, 6), (1, 3)].iter().enumerate() {
        assert!(bounds.0 <= result.flows[k].2 && result.flows[k].2 <= bounds.1);
    }
}

#[test]
fn parallel_edges_get_their_own_flow() {
    let mut cn = CirculationNetwork::new(2);
    cn.set_demand(0, -6);
    cn.set_demand(1, 6);
    cn.add_edge(0, 1, 0, 4);
    cn.add_edge(0, 1, 0, 4);
    let result = find_circulation(&cn);
    assert!(result.feasible);
    assert_eq!(result.flows[0].2 + result.flows[1].2, 6);
    assert!(result.flows[0].2 <= 4 && result.flows[1].2 <= 4);
}

#[test]
fn total_flow_is_the_least() {
    let mut cn = CirculationNetwork::new(3);
    cn.set_demand(0, -5);
    cn.set_demand(1, 5);
    cn.add_edge(0, 2, 0, 10);
    cn.add_edge(2, 1, 0, 10);
    cn.add_edge(0, 1, 0, 10);
    assert_eq!(total_flow(&cn), 5);
}

#[test]
fn total_flow_without_circulation() {
    let mut cn = CirculationNetwork::new(2);
    cn.set_demand(0, 5);
    cn.set_demand(1, -5);
    cn.add_edge(0, 1, 5, 10);
    assert_eq!(total_flow(&cn), -1);
}
