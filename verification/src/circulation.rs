//! Circulation with demands.
//!
//! Determines if a feasible circulation exists in a network
//! where each edge has a capacity and each vertex has a demand/supply.
use vstd::prelude::*;

use crate::flow_spec::{
    caps_of, deep, flow_of, is_max_flow_value, lemma_flow_of_bounds, net, residual_ok, same_shape, EdgeRef, Slot,
};
use crate::max_flow;
use crate::feasibility::{
    gflow, is_circulation, lemma_circulation_balances, lemma_circulation_gives_flow, lemma_edge_entry_at,
    lemma_edge_pos_strict, lemma_value_at_most_required, reduction_flow, is_circulation_reduction,
    lemma_edge_triples_in_range, lemma_feasible_is_circulation, lemma_vertex_triples_in_range,
};
use crate::min_cost::{lemma_nonnegative_costs_no_negative_cycle, min_cost_flow, min_cost_outcome, MinCostNetwork};
use crate::cost_spec::{flow_cost, is_min_cost_flow};
use crate::matching::pre_sum;
use crate::circulation_total::{
    flow_sum, lemma_cap_total_mono, lemma_cost_is_prefix, lemma_cost_limit_le, lemma_edge_triples_len, lemma_flow_sum_split,
    lemma_gsum, lemma_pre_sum_le_caps, lemma_slot_count_built, lemma_vertex_triples_len,
};
use crate::max_flow::slot_count;
use crate::{built_edges, built_slots, lemma_built_edges, new_edge_ref, FlowNetwork};

verus! {

/// A circulation network with vertex demands.
#[derive(Clone, Debug)]
pub struct CirculationNetwork {
    n: usize,
    /// (from, to, lower_bound, upper_bound)
    edges: Vec<(usize, usize, u64, u64)>,
    /// Demand at each vertex. Positive = demand (needs flow in), negative = supply.
    demands: Vec<i64>,
}

impl CirculationNetwork {
    /// Number of vertices.
    pub closed spec fn vertices(&self) -> int {
        self.n as int
    }

    /// The edges (from, to, lower bound, upper bound), in the order they were added.
    pub closed spec fn edge_list(&self) -> Seq<(usize, usize, u64, u64)> {
        self.edges@
    }

    /// The demand of every vertex.
    pub closed spec fn demand_list(&self) -> Seq<i64> {
        self.demands@
    }

    /// One demand per vertex; every edge joins two vertices with its lower
    /// bound at most its upper bound.
    pub open spec fn wf(&self) -> bool {
        &&& self.demand_list().len() == self.vertices()
        &&& forall|k: int|
            0 <= k < self.edge_list().len() ==> #[trigger] self.edge_list()[k].0 < self.vertices()
                && self.edge_list()[k].1 < self.vertices() && self.edge_list()[k].2 <= self.edge_list()[k].3
    }

    /// Create a new circulation network with `n` vertices.
    pub fn new(n: usize) -> (net: Self)
        ensures
            net.wf(),
            net.vertices() == n,
            net.edge_list() == Seq::<(usize, usize, u64, u64)>::empty(),
            net.demand_list() == Seq::new(n as nat, |v: int| 0i64),
    {
        let mut demands: Vec<i64> = Vec::new();
        let mut i: usize = 0;
        while i < n
            invariant
                i <= n,
                demands@ == Seq::new(i as nat, |v: int| 0i64),
            decreases n - i,
        {
            demands.push(0);
            i = i + 1;
            assert(demands@ =~= Seq::new(i as nat, |v: int| 0i64));
        }
        Self { n, edges: Vec::new(), demands }
    }

    /// Set the demand at vertex `v`. Positive = vertex needs flow, negative = vertex supplies flow.
    pub fn set_demand(&mut self, v: usize, demand: i64)
        requires
            old(self).wf(),
            v < old(self).vertices(),
        ensures
            final(self).wf(),
            final(self).vertices() == old(self).vertices(),
            final(self).edge_list() == old(self).edge_list(),
            final(self).demand_list() == old(self).demand_list().update(v as int, demand),
    {
        self.demands.set(v, demand);
        assert forall|k: int| 0 <= k < self.edge_list().len() implies #[trigger] self.edge_list()[k].0 < self.vertices()
            && self.edge_list()[k].1 < self.vertices() && self.edge_list()[k].2 <= self.edge_list()[k].3 by {
            assert(self.edge_list()[k] == old(self).edge_list()[k]);
        }
    }

    /// Add an edge with lower and upper capacity bounds.
    pub fn add_edge(&mut self, from: usize, to: usize, lower: u64, upper: u64)
        requires
            old(self).wf(),
            from < old(self).vertices(),
            to < old(self).vertices(),
            lower <= upper,
        ensures
            final(self).wf(),
            final(self).vertices() == old(self).vertices(),
            final(self).edge_list() == old(self).edge_list().push((from, to, lower, upper)),
            final(self).demand_list() == old(self).demand_list(),
    {
        self.edges.push((from, to, lower, upper));
        assert forall|k: int| 0 <= k < self.edge_list().len() implies #[trigger] self.edge_list()[k].0 < self.vertices()
            && self.edge_list()[k].1 < self.vertices() && self.edge_list()[k].2 <= self.edge_list()[k].3 by {
            if k < old(self).edge_list().len() {
                assert(self.edge_list()[k] == old(self).edge_list()[k]);
            }
        }
    }

    /// Number of vertices.
    pub fn vertex_count(&self) -> (n: usize)
        ensures
            n == self.vertices(),
    {
        self.n
    }
}

/// Result of a circulation feasibility check.
#[derive(Debug, Clone)]
pub struct CirculationResult {
    /// Whether a feasible circulation exists.
    pub feasible: bool,
    /// Flow on each edge (satisfying lower/upper bounds and demands).
    pub flows: Vec<(usize, usize, i128)>,
}

/// Sum of the first `m` demands.
pub open spec fn total_demand(ds: Seq<i64>, m: int) -> int
    decreases m,
{
    if m <= 0 {
        0
    } else {
        total_demand(ds, m - 1) + ds[m - 1]
    }
}

/// What the lower bounds of the first `m` edges bring into vertex `v`.
pub open spec fn excess(es: Seq<(usize, usize, u64, u64)>, v: int, m: int) -> int
    decreases m,
{
    if m <= 0 {
        0
    } else {
        excess(es, v, m - 1) - (if es[m - 1].0 == v { es[m - 1].2 as int } else { 0 }) + (if es[m - 1].1 == v {
            es[m - 1].2 as int
        } else {
            0
        })
    }
}

/// Sum of the lower bounds of the first `m` edges.
pub open spec fn lower_total(es: Seq<(usize, usize, u64, u64)>, m: int) -> int
    decreases m,
{
    if m <= 0 {
        0
    } else {
        lower_total(es, m - 1) + es[m - 1].2
    }
}

/// Demand of `v` once the lower bounds are sent: what it still needs after
/// the lower bounds bring in their excess.
pub open spec fn adjusted(ds: Seq<i64>, es: Seq<(usize, usize, u64, u64)>, v: int) -> int {
    ds[v] - excess(es, v, es.len() as int)
}

/// The edges of the reduction for the first `m` edges: each edge with room
/// above its lower bound, with that room as capacity.
pub open spec fn edge_triples(es: Seq<(usize, usize, u64, u64)>, m: int) -> Seq<(usize, usize, u64)>
    decreases m,
{
    if m <= 0 {
        Seq::empty()
    } else {
        let e = es[m - 1];
        edge_triples(es, m - 1) + (if e.3 > e.2 {
            seq![(e.0, e.1, (e.3 - e.2) as u64)]
        } else {
            Seq::empty()
        })
    }
}

/// The edges of the reduction for the first `m` vertices: from the
/// super-source `n` to a vertex of negative adjusted demand, from a vertex
/// of positive adjusted demand to the super-sink `n + 1`.
pub open spec fn vertex_triples(n: int, ds: Seq<i64>, es: Seq<(usize, usize, u64, u64)>, m: int) -> Seq<
    (usize, usize, u64),
>
    decreases m,
{
    if m <= 0 {
        Seq::empty()
    } else {
        let a = adjusted(ds, es, m - 1);
        vertex_triples(n, ds, es, m - 1) + (if a < 0 {
            seq![(n as usize, (m - 1) as usize, (-a) as u64)]
        } else if a > 0 {
            seq![((m - 1) as usize, (n + 1) as usize, a as u64)]
        } else {
            Seq::empty()
        })
    }
}

/// All edges of the reduction, in the order they are added.
pub open spec fn reduction_edges(n: int, ds: Seq<i64>, es: Seq<(usize, usize, u64, u64)>) -> Seq<(usize, usize, u64)> {
    edge_triples(es, es.len() as int) + vertex_triples(n, ds, es, n)
}

/// The flow the super-source must send: the supplies left after the lower bounds.
pub open spec fn required(ds: Seq<i64>, es: Seq<(usize, usize, u64, u64)>, m: int) -> int
    decreases m,
{
    if m <= 0 {
        0
    } else {
        required(ds, es, m - 1) + (if adjusted(ds, es, m - 1) < 0 { -adjusted(ds, es, m - 1) } else { 0 })
    }
}

/// Capacity of the reduction's edges for the first `m` edges.
pub open spec fn edge_cap_total(es: Seq<(usize, usize, u64, u64)>, m: int) -> int
    decreases m,
{
    if m <= 0 {
        0
    } else {
        edge_cap_total(es, m - 1) + (if es[m - 1].3 > es[m - 1].2 { es[m - 1].3 - es[m - 1].2 } else { 0 })
    }
}

/// Capacity of the reduction's edges for the first `m` vertices.
pub open spec fn vertex_cap_total(ds: Seq<i64>, es: Seq<(usize, usize, u64, u64)>, m: int) -> int
    decreases m,
{
    if m <= 0 {
        0
    } else {
        vertex_cap_total(ds, es, m - 1) + (if adjusted(ds, es, m - 1) < 0 {
            -adjusted(ds, es, m - 1)
        } else {
            adjusted(ds, es, m - 1)
        })
    }
}

/// What `find_circulation` requires: a well-formed network whose reduction
/// fits the flow algorithms (its size a `usize`, its total
/// capacity an `i64`) and whose lower bounds add up within a `u64`.
pub open spec fn circulation_input_ok(net: CirculationNetwork) -> bool {
    let n = net.vertices();
    let es = net.edge_list();
    &&& net.wf()
    &&& n + 2 <= usize::MAX
    &&& lower_total(es, es.len() as int) <= u64::MAX
    &&& edge_cap_total(es, es.len() as int) + vertex_cap_total(net.demand_list(), es, n) <= i64::MAX
}


/// Every edge with its lower bound plus what its edge of the reduction
/// carries under the flow `f` (nothing when it has no edge there).
pub open spec fn circulation_flows(es: Seq<(usize, usize, u64, u64)>, f: Seq<int>) -> Seq<(usize, usize, i128)> {
    Seq::new(es.len(), |k: int| (es[k].0, es[k].1, (es[k].2 + gflow(es, f, k)) as i128))
}

/// The result of `find_circulation`: infeasible when the demands do not
/// balance; else Ford-Fulkerson leaves a maximum flow on the reduction, the
/// answer is feasible exactly when that flow sends what the super-source
/// must send, and every edge's flow is its lower bound plus what its edge of
/// the reduction carries.
pub open spec fn circulation_outcome(
    n: int,
    ds: Seq<i64>,
    es: Seq<(usize, usize, u64, u64)>,
    feasible: bool,
    flows: Seq<(usize, usize, i128)>,
) -> bool {
    if total_demand(ds, n) != 0 {
        !feasible && flows.len() == 0
    } else {
        let tr = reduction_edges(n, ds, es);
        let orig = built_slots((n + 2) as nat, tr);
        let ers = built_edges((n + 2) as nat, tr);
        exists|res: Seq<Seq<Slot>>|
            #[trigger] residual_ok(orig, res, ers) && {
                let f = flow_of(orig, res, ers);
                &&& forall|w: int| 0 <= w < n + 2 && w != n && w != n + 1 ==> #[trigger] net(ers, f, w) == 0
                &&& is_max_flow_value(n + 2, ers, caps_of(orig, ers), n, n + 1, net(ers, f, n))
                &&& feasible == (net(ers, f, n) == required(ds, es, n))
                &&& flows == circulation_flows(es, f)
            }
    }
}

/// The cost per unit of the reduction's edges: 1 on the `ne` edges made
/// from graph edges, nothing on the `nv` edges at the super-source or sink.
pub open spec fn reduction_costs(ne: int, nv: int) -> Seq<int> {
    Seq::new((ne + nv) as nat, |j: int| if j < ne { 1int } else { 0int })
}

/// The forward slot of graph edge `k`'s edge of the reduction stands at
/// index `so[k]` of its source's list.
pub open spec fn slot_recorded(refs: Seq<EdgeRef>, es: Seq<(usize, usize, u64, u64)>, so: Seq<usize>, k: int) -> bool {
    let p = edge_triples(es, k).len() as int;
    &&& p < refs.len()
    &&& refs[p].fi == so[k] as int
}

proof fn lemma_built_len(n: nat, tr: Seq<(usize, usize, u64)>)
    ensures
        built_edges(n, tr).len() == tr.len(),
    decreases tr.len(),
{
    if tr.len() > 0 {
        lemma_built_len(n, tr.drop_last());
    }
}

proof fn lemma_excess_bounded(es: Seq<(usize, usize, u64, u64)>, v: int, m: int)
    requires
        0 <= m <= es.len(),
    ensures
        -lower_total(es, m) <= excess(es, v, m) <= lower_total(es, m),
        0 <= lower_total(es, m),
    decreases m,
{
    if m > 0 {
        lemma_excess_bounded(es, v, m - 1);
    }
}

proof fn lemma_lower_total_mono(es: Seq<(usize, usize, u64, u64)>, m1: int, m2: int)
    requires
        0 <= m1 <= m2 <= es.len(),
    ensures
        lower_total(es, m1) <= lower_total(es, m2),
    decreases m2,
{
    if m1 < m2 {
        lemma_lower_total_mono(es, m1, m2 - 1);
    }
}

proof fn lemma_edge_cap_total_mono(es: Seq<(usize, usize, u64, u64)>, m1: int, m2: int)
    requires
        0 <= m1 <= m2 <= es.len(),
    ensures
        0 <= edge_cap_total(es, m1) <= edge_cap_total(es, m2),
    decreases m2,
{
    if m1 < m2 {
        lemma_edge_cap_total_mono(es, m1, m2 - 1);
    } else {
        lemma_edge_cap_total_nonneg(es, m1);
    }
}

proof fn lemma_edge_cap_total_nonneg(es: Seq<(usize, usize, u64, u64)>, m: int)
    requires
        0 <= m <= es.len(),
    ensures
        0 <= edge_cap_total(es, m),
    decreases m,
{
    if m > 0 {
        lemma_edge_cap_total_nonneg(es, m - 1);
    }
}

proof fn lemma_vertex_cap_total_mono(ds: Seq<i64>, es: Seq<(usize, usize, u64, u64)>, m1: int, m2: int)
    requires
        0 <= m1 <= m2,
    ensures
        0 <= required(ds, es, m1) <= vertex_cap_total(ds, es, m1) <= vertex_cap_total(ds, es, m2),
    decreases m2,
{
    if m1 < m2 {
        lemma_vertex_cap_total_mono(ds, es, m1, m2 - 1);
    } else {
        lemma_required_le(ds, es, m1);
    }
}

proof fn lemma_required_le(ds: Seq<i64>, es: Seq<(usize, usize, u64, u64)>, m: int)
    ensures
        0 <= required(ds, es, m) <= vertex_cap_total(ds, es, m),
    decreases m,
{
    if m > 0 {
        lemma_required_le(ds, es, m - 1);
    }
}






/// Sum of all demands.
fn demand_sum(ds: &Vec<i64>) -> (t: i128)
    requires
        ds@.len() <= usize::MAX,
    ensures
        t == total_demand(ds@, ds@.len() as int),
{
    let mut t: i128 = 0;
    let mut i: usize = 0;
    while i < ds.len()
        invariant
            i <= ds@.len(),
            t == total_demand(ds@, i as int),
            -(i as int) * 0x8000_0000_0000_0000 <= t <= (i as int) * 0x8000_0000_0000_0000,
        decreases ds@.len() - i,
    {
        t = t + ds[i] as i128;
        i = i + 1;
    }
    t
}

/// The network of the reduction, and the flow it must carry; every graph
/// edge costs 1 per unit, every edge at the super-source or the super-sink
/// nothing.
fn build_reduction(network: &CirculationNetwork) -> (out: (MinCostNetwork, u64, Vec<usize>))
    requires
        circulation_input_ok(*network),
    ensures
        out.2@.len() == network.edge_list().len(),
        forall|k: int|
            0 <= k < network.edge_list().len() && network.edge_list()[k].3 > network.edge_list()[k].2 ==> #[trigger] slot_recorded(
                out.0.graph().edge_refs(),
                network.edge_list(),
                out.2@,
                k,
            ),
        out.0.wf(),
        out.0.costs() == reduction_costs(
            edge_triples(network.edge_list(), network.edge_list().len() as int).len() as int,
            vertex_triples(network.vertices(), network.demand_list(), network.edge_list(), network.vertices()).len() as int,
        ),
        out.0.graph().vertices() == network.vertices() + 2,
        out.0.graph().slots() == built_slots(
            (network.vertices() + 2) as nat,
            reduction_edges(network.vertices(), network.demand_list(), network.edge_list()),
        ),
        out.0.graph().edge_refs() == built_edges(
            (network.vertices() + 2) as nat,
            reduction_edges(network.vertices(), network.demand_list(), network.edge_list()),
        ),
        out.0.graph().total_capacity() == edge_cap_total(network.edge_list(), network.edge_list().len() as int)
            + vertex_cap_total(network.demand_list(), network.edge_list(), network.vertices()),
        out.1 == required(network.demand_list(), network.edge_list(), network.vertices()),
{
    let n = network.n;
    let ghost ds = network.demands@;
    let ghost es = network.edges@;
    let ghost m = es.len() as int;
    let source = n;
    let sink = n + 1;
    let flow_n = n + 2;
    let mut net = MinCostNetwork::new(flow_n);
    let mut excess_v: Vec<i128> = Vec::new();
    let mut i: usize = 0;
    while i < n
        invariant
            i <= n,
            excess_v@ == Seq::new(i as nat, |v: int| 0i128),
        decreases n - i,
    {
        excess_v.push(0);
        i = i + 1;
        assert(excess_v@ =~= Seq::new(i as nat, |v: int| 0i128));
    }
    proof {
        lemma_edge_cap_total_mono(es, 0, m);
        lemma_vertex_cap_total_mono(ds, es, 0, n as int);
        lemma_lower_total_mono(es, 0, m);
    }
    assert(edge_triples(es, 0) =~= Seq::<(usize, usize, u64)>::empty());
    let mut slot_of: Vec<usize> = Vec::new();
    let mut idx: usize = 0;
    while idx < network.edges.len()
        invariant
            circulation_input_ok(*network),
            ds == network.demand_list(),
            es == network.edge_list(),
            m == es.len(),
            n == network.vertices(),
            flow_n == n + 2,
            source == n,
            sink == n + 1,
            idx <= m,
            excess_v@.len() == n,
            forall|v: int| 0 <= v < n ==> #[trigger] excess_v@[v] == excess(es, v, idx as int),
            net.wf(),
            net.graph().wf(),
            net.graph().vertices() == flow_n,
            net.graph().slots() == built_slots(flow_n as nat, edge_triples(es, idx as int)),
            net.graph().edge_refs() == built_edges(flow_n as nat, edge_triples(es, idx as int)),
            net.graph().total_capacity() == edge_cap_total(es, idx as int),
            net.costs() == Seq::new(edge_triples(es, idx as int).len(), |j: int| 1int),
            slot_of@.len() == idx,
            forall|k: int|

                0 <= k < idx && es[k].3 > es[k].2 ==> #[trigger] slot_recorded(net.graph().edge_refs(), es, slot_of@, k),
        decreases m - idx,
    {
        let (from, to, lower, upper) = network.edges[idx];
        assert(es[idx as int] == (from, to, lower, upper));
        assert(from < n && to < n && lower <= upper);
        proof {
            lemma_edge_cap_total_mono(es, idx as int + 1, m);
            lemma_excess_bounded(es, from as int, idx as int);
            lemma_excess_bounded(es, to as int, idx as int);
            lemma_lower_total_mono(es, idx as int, m);
        }
        let ghost tr0 = edge_triples(es, idx as int);
        let ghost refs0 = net.graph().edge_refs();
        let ghost so0 = slot_of@;
        let ghost slots0 = net.graph().slots();
        proof {
            lemma_built_len(flow_n as nat, tr0);
            assert(refs0.len() == tr0.len());
        }
        if upper > lower {
            let fi = net.flow_part().adjacency()[from].len();
            assert(fi == slots0[from as int].len());
            net.add_edge(from, to, upper - lower, 1);
            slot_of.push(fi);
            proof {
                let tr1 = edge_triples(es, idx + 1);
                assert(tr1 == tr0.push((from, to, (upper - lower) as u64)));
                assert(tr1.drop_last() =~= tr0);
                assert forall|k: int| 0 <= k < idx + 1 && es[k].3 > es[k].2 implies #[trigger] slot_recorded(net.graph().edge_refs(), es, slot_of@, k) by {
                    if k < idx {
                        assert(slot_recorded(refs0, es, so0, k));
                        lemma_edge_pos_strict(es, k, idx as int);
                        assert(net.graph().edge_refs()[edge_triples(es, k).len() as int] == refs0[edge_triples(es, k).len() as int]);
                        assert(slot_of@[k] == so0[k]);
                    } else {
                        assert(edge_triples(es, k).len() == refs0.len());
                        assert(net.graph().edge_refs()[refs0.len() as int] == new_edge_ref(slots0, from as int, to as int));
                        assert(slot_of@[k] == fi);
                    }
                }
            }
        } else {
            slot_of.push(0);
            assert(edge_triples(es, idx + 1) =~= tr0);
            assert forall|k: int| 0 <= k < idx + 1 && es[k].3 > es[k].2 implies #[trigger] slot_recorded(net.graph().edge_refs(), es, slot_of@, k) by {
                assert(k < idx);
                assert(slot_recorded(refs0, es, so0, k));
                assert(slot_of@[k] == so0[k]);
            }
        }
        excess_v.set(from, excess_v[from] - lower as i128);
        excess_v.set(to, excess_v[to] + lower as i128);
        idx = idx + 1;
    }
    let mut required_flow: u64 = 0;
    let ghost et = edge_triples(es, m);
    assert(et + vertex_triples(n as int, ds, es, 0) =~= et);
    let mut v: usize = 0;
    while v < n
        invariant
            circulation_input_ok(*network),
            ds == network.demand_list(),
            es == network.edge_list(),
            m == es.len(),
            n == network.vertices(),
            ds.len() == n,
            flow_n == n + 2,
            source == n,
            sink == n + 1,
            v <= n,
            et == edge_triples(es, m),
            excess_v@.len() == n,
            forall|w: int| 0 <= w < n ==> #[trigger] excess_v@[w] == excess(es, w, m),
            net.wf(),
            net.graph().wf(),
            net.graph().vertices() == flow_n,
            net.graph().slots() == built_slots(flow_n as nat, et + vertex_triples(n as int, ds, es, v as int)),
            net.graph().edge_refs() == built_edges(flow_n as nat, et + vertex_triples(n as int, ds, es, v as int)),
            net.graph().total_capacity() == edge_cap_total(es, m) + vertex_cap_total(ds, es, v as int),
            net.costs() == reduction_costs(et.len() as int, vertex_triples(n as int, ds, es, v as int).len() as int),
            required_flow == required(ds, es, v as int),
            slot_of@.len() == m,
            forall|k: int|

                0 <= k < m && es[k].3 > es[k].2 ==> #[trigger] slot_recorded(net.graph().edge_refs(), es, slot_of@, k),
        decreases n - v,
    {
        proof {
            lemma_excess_bounded(es, v as int, m);
            lemma_vertex_cap_total_mono(ds, es, v as int + 1, n as int);
            lemma_vertex_cap_total_mono(ds, es, v as int, v as int + 1);
            lemma_edge_cap_total_mono(es, m, m);
        }
        let adjusted_v: i128 = network.demands[v] as i128 - excess_v[v];
        assert(adjusted_v == adjusted(ds, es, v as int));
        let ghost tr0 = et + vertex_triples(n as int, ds, es, v as int);
        let ghost tr1 = et + vertex_triples(n as int, ds, es, v + 1);
        let ghost refs0 = net.graph().edge_refs();
        if adjusted_v < 0 {
            let c = (-adjusted_v) as u64;
            net.add_edge(source, v, c, 0);
            required_flow = required_flow + c;
            proof {
                assert(tr1 =~= tr0.push((n as usize, v as usize, c)));
                assert(tr1.drop_last() =~= tr0);
            }
        } else if adjusted_v > 0 {
            let c = adjusted_v as u64;
            net.add_edge(v, sink, c, 0);
            proof {
                assert(tr1 =~= tr0.push((v as usize, (n + 1) as usize, c)));
                assert(tr1.drop_last() =~= tr0);
            }
        } else {
            assert(tr1 =~= tr0);
        }
        proof {
            assert forall|k: int| 0 <= k < m && es[k].3 > es[k].2 implies #[trigger] slot_recorded(net.graph().edge_refs(), es, slot_of@, k) by {
                let p = edge_triples(es, k).len() as int;
                assert(slot_recorded(refs0, es, slot_of@, k));
                assert(p < refs0.len());
                assert(net.graph().edge_refs()[p] == refs0[p]);
            }
        }
        v = v + 1;
    }
    (net, required_flow, slot_of)
}


/// Every edge with its lower bound plus what its edge of the reduction, whose
/// forward slot is `slot_of[k]` in its source's list, carries in `adj`.
fn edge_flows(
    edges: &Vec<(usize, usize, u64, u64)>,
    oadj: &[Vec<Slot>],
    adj: &Vec<Vec<Slot>>,
    slot_of: &Vec<usize>,
    Ghost(ers): Ghost<Seq<EdgeRef>>,
) -> (flows: Vec<(usize, usize, i128)>)
    requires
        slot_of@.len() == edges@.len(),
        same_shape(deep(oadj@), deep(adj@)),
        forall|k: int| 0 <= k < edges@.len() ==> (#[trigger] edges@[k].0 as int) < oadj@.len() && edges@[k].2 <= edges@[k].3,
        forall|k: int|
            0 <= k < edges@.len() && #[trigger] edges@[k].3 > edges@[k].2 ==> {
                let p = edge_triples(edges@, k).len() as int;
                let f = flow_of(deep(oadj@), deep(adj@), ers);
                &&& 0 <= p < ers.len()
                &&& ers[p].from == edges@[k].0 as int
                &&& ers[p].fi == slot_of@[k] as int
                &&& 0 <= ers[p].fi < deep(oadj@)[ers[p].from].len()
                &&& 0 <= f[p] <= edges@[k].3 - edges@[k].2
            },
    ensures
        flows@ == circulation_flows(edges@, flow_of(deep(oadj@), deep(adj@), ers)),
        forall|k: int|
            0 <= k < flows@.len() ==> edges@[k].2 <= #[trigger] flows@[k].2 <= edges@[k].3,
{
    let ghost f = flow_of(deep(oadj@), deep(adj@), ers);
    let mut flows: Vec<(usize, usize, i128)> = Vec::new();
    let mut k: usize = 0;
    while k < edges.len()
        invariant
            k <= edges@.len(),
            f == flow_of(deep(oadj@), deep(adj@), ers),
            slot_of@.len() == edges@.len(),
            same_shape(deep(oadj@), deep(adj@)),
            forall|i: int| 0 <= i < edges@.len() ==> (#[trigger] edges@[i].0 as int) < oadj@.len() && edges@[i].2 <= edges@[i].3,
            forall|i: int|
                0 <= i < edges@.len() && #[trigger] edges@[i].3 > edges@[i].2 ==> {
                    let p = edge_triples(edges@, i).len() as int;
                    &&& 0 <= p < ers.len()
                    &&& ers[p].from == edges@[i].0 as int
                    &&& ers[p].fi == slot_of@[i] as int
                    &&& 0 <= ers[p].fi < deep(oadj@)[ers[p].from].len()
                    &&& 0 <= f[p] <= edges@[i].3 - edges@[i].2
                },
            flows@ == circulation_flows(edges@, f).take(k as int),
            forall|i: int| 0 <= i < k ==> edges@[i].2 <= #[trigger] flows@[i].2 <= edges@[i].3,
        decreases edges@.len() - k,
    {
        let (from, to, lower, upper) = edges[k];
        let mut extra: u64 = 0;
        if upper > lower {
            let j = slot_of[k];
            let ghost p = edge_triples(edges@, k as int).len() as int;
            assert(edges@[k as int].3 > edges@[k as int].2);
            assert(deep(adj@)[from as int].len() == deep(oadj@)[from as int].len());
            assert(f[p] == deep(oadj@)[from as int][j as int].1 - deep(adj@)[from as int][j as int].1);
            assert(0 <= f[p] <= edges@[k as int].3 - edges@[k as int].2);
            extra = oadj[from][j].1 - adj[from][j].1;
        }
        assert(lower + extra == lower + gflow(edges@, f, k as int));
        flows.push((from, to, lower as i128 + extra as i128));
        proof {
            assert(flows@ =~= circulation_flows(edges@, f).take(k + 1));
        }
        k = k + 1;
    }
    assert(circulation_flows(edges@, f).take(edges@.len() as int) =~= circulation_flows(edges@, f));
    flows
}

/// Check if a feasible circulation exists.
///
/// Uses the standard reduction to max-flow with super-source and super-sink.
pub fn find_circulation(network: &CirculationNetwork) -> (result: CirculationResult)
    requires
        circulation_input_ok(*network),
    ensures
        circulation_outcome(
            network.vertices(),
            network.demand_list(),
            network.edge_list(),
            result.feasible,
            result.flows@,
        ),
        result.feasible ==> is_circulation(network.demand_list(), network.edge_list(), result.flows@),
        (exists|c: Seq<(usize, usize, i128)>|
            #[trigger] is_circulation(network.demand_list(), network.edge_list(), c)) ==> result.feasible,
{
    let total = demand_sum(&network.demands);
    if total != 0 {
        proof {
            if exists|c: Seq<(usize, usize, i128)>| #[trigger] is_circulation(network.demand_list(), network.edge_list(), c) {
                let c = choose|c: Seq<(usize, usize, i128)>| #[trigger] is_circulation(network.demand_list(), network.edge_list(), c);
                lemma_circulation_balances(network.demand_list(), network.edge_list(), c);
            }
        }
        return CirculationResult { feasible: false, flows: Vec::new() };
    }
    let n = network.n;
    let (mnet, required_flow, slot_of) = build_reduction(network);
    let net = mnet.flow_part();
    let ghost nn = network.vertices();
    let ghost ds = network.demand_list();
    let ghost es = network.edge_list();
    let ghost tr = reduction_edges(nn, ds, es);
    let ghost n2 = nn + 2;
    let ghost orig = net.slots();
    let ghost ers = net.edge_refs();
    let ghost ow = net.owners();
    proof {
        let et = edge_triples(es, es.len() as int);
        let vt = vertex_triples(nn, ds, es, nn);
        assert(tr == et + vt);
        lemma_edge_triples_in_range(es, nn, es.len() as int);
        lemma_vertex_triples_in_range(nn, ds, es, nn);
        assert forall|k: int| 0 <= k < tr.len() implies (#[trigger] tr[k].0 as int) < n2 && (tr[k].1 as int) < n2 by {
            if k < et.len() {
                assert(tr[k] == et[k]);
            } else {
                assert(tr[k] == vt[k - et.len()]);
            }
        }
        lemma_built_edges(n2 as nat, tr);
        assert forall|v: int| 0 <= v < nn implies -i64::MAX <= #[trigger] adjusted(ds, es, v) <= i64::MAX by {
            lemma_vertex_cap_total_mono(ds, es, v, v);
            lemma_vertex_cap_total_mono(ds, es, v + 1, nn);
            lemma_edge_cap_total_nonneg(es, es.len() as int);
        }
        assert(is_circulation_reduction(nn, ds, es, orig, ers, ow));
    }
    let (adj, value, _cut) = max_flow::run_ford_fulkerson(net, n, n + 1);
    let feasible = value == required_flow;
    let ghost res = deep(adj@);
    let ghost f = flow_of(orig, res, ers);
    proof {
        lemma_flow_of_bounds(orig, res, ers);
        assert forall|k: int| 0 <= k < es.len() && #[trigger] es[k].3 > es[k].2 implies {
            let p = edge_triples(es, k).len() as int;
            &&& 0 <= p < ers.len()
            &&& ers[p].from == es[k].0 as int
            &&& ers[p].fi == slot_of@[k] as int
            &&& 0 <= ers[p].fi < orig[ers[p].from].len()
            &&& 0 <= f[p] <= es[k].3 - es[k].2
        } by {
            let p = edge_triples(es, k).len() as int;
            assert(slot_recorded(ers, es, slot_of@, k));
            let et = edge_triples(es, es.len() as int);
            lemma_edge_entry_at(es, k, es.len() as int);
            assert(tr[p] == et[p]);
            assert(ers[p] == ers[p]);
            assert(0 <= f[p] <= caps_of(orig, ers)[p]);
        }
        assert forall|k: int| 0 <= k < es.len() implies (#[trigger] es[k].0 as int) < orig.len() && es[k].2 <= es[k].3 by {
            assert(es[k] == es[k]);
        }
    }
    let flows = edge_flows(&network.edges, net.adjacency(), &adj, &slot_of, Ghost(ers));
    proof {
        assert(residual_ok(orig, res, ers));
        if feasible {
            lemma_feasible_is_circulation(nn, ds, es, orig, ers, ow, res);
        }
        if exists|c: Seq<(usize, usize, i128)>| #[trigger] is_circulation(ds, es, c) {
            let c = choose|c: Seq<(usize, usize, i128)>| #[trigger] is_circulation(ds, es, c);
            lemma_value_at_most_required(nn, ds, es, orig, ers, ow, res);
            lemma_circulation_gives_flow(nn, ds, es, orig, ers, ow, c);
            assert(crate::flow_spec::net(ers, reduction_flow(nn, ds, es, c), nn) <= value);
        }
    }
    CirculationResult { feasible, flows }
}

/// Check feasibility without computing the actual flow.
pub fn is_feasible(network: &CirculationNetwork) -> (b: bool)
    requires
        circulation_input_ok(*network),
    ensures
        exists|flows: Seq<(usize, usize, i128)>|
            #[trigger] circulation_outcome(network.vertices(), network.demand_list(), network.edge_list(), b, flows),
        b <==> exists|flows: Seq<(usize, usize, i128)>|
            #[trigger] is_circulation(network.demand_list(), network.edge_list(), flows),
{
    let result = find_circulation(network);
    proof {
        if result.feasible {
            assert(is_circulation(network.demand_list(), network.edge_list(), result.flows@));
        }
    }
    result.feasible
}

/// Sum of the lower bounds of the edges.
fn lower_sum(edges: &Vec<(usize, usize, u64, u64)>) -> (t: i128)
    requires
        lower_total(edges@, edges@.len() as int) <= u64::MAX,
    ensures
        t == lower_total(edges@, edges@.len() as int),
{
    let mut t: i128 = 0;
    let mut k: usize = 0;
    while k < edges.len()
        invariant
            k <= edges@.len(),
            lower_total(edges@, edges@.len() as int) <= u64::MAX,
            t == lower_total(edges@, k as int),
        decreases edges@.len() - k,
    {
        proof {
            lemma_lower_total_mono(edges@, k + 1, edges@.len() as int);
            lemma_lower_total_mono(edges@, 0, k as int);
        }
        t = t + edges[k].2 as i128;
        k = k + 1;
    }
    t
}

/// Compute the minimum feasible flow value that satisfies all constraints.
///
/// Returns the least sum of the edge flows of a circulation, or -1 when there
/// is none.
pub fn total_flow(network: &CirculationNetwork) -> (t: i128)
    requires
        circulation_input_ok(*network),
        (network.vertices() + 2) * (2 * (network.edge_list().len() + network.vertices())) <= u64::MAX,
    ensures
        t == -1 <==> !exists|flows: Seq<(usize, usize, i128)>|
            #[trigger] is_circulation(network.demand_list(), network.edge_list(), flows),
        t != -1 ==> exists|flows: Seq<(usize, usize, i128)>|
            #[trigger] is_circulation(network.demand_list(), network.edge_list(), flows) && t == flow_sum(
                flows,
                flows.len() as int,
            ),
        forall|flows: Seq<(usize, usize, i128)>|
            #[trigger] is_circulation(network.demand_list(), network.edge_list(), flows) ==> t <= flow_sum(
                flows,
                flows.len() as int,
            ),
{
    let total = demand_sum(&network.demands);
    if total != 0 {
        proof {
            if exists|c: Seq<(usize, usize, i128)>| #[trigger] is_circulation(network.demand_list(), network.edge_list(), c) {
                let c = choose|c: Seq<(usize, usize, i128)>| #[trigger] is_circulation(network.demand_list(), network.edge_list(), c);
                lemma_circulation_balances(network.demand_list(), network.edge_list(), c);
            }
        }
        return -1;
    }
    let n = network.n;
    let (mnet, required_flow, _slot_of) = build_reduction(network);
    let ghost nn = network.vertices();
    let ghost ds = network.demand_list();
    let ghost es = network.edge_list();
    let ghost tr = reduction_edges(nn, ds, es);
    let ghost n2 = nn + 2;
    let ghost g = mnet.graph();
    let ghost orig = g.slots();
    let ghost ers = g.edge_refs();
    let ghost ow = g.owners();
    let ghost cg = mnet.slot_costs();
    let ghost et = edge_triples(es, es.len() as int);
    let ghost vt = vertex_triples(nn, ds, es, nn);
    let ghost ne = et.len() as int;
    let ghost nv = vt.len() as int;
    proof {
        assert(tr == et + vt);
        lemma_edge_triples_in_range(es, nn, es.len() as int);
        lemma_vertex_triples_in_range(nn, ds, es, nn);
        assert forall|k: int| 0 <= k < tr.len() implies (#[trigger] tr[k].0 as int) < n2 && (tr[k].1 as int) < n2 by {
            if k < et.len() {
                assert(tr[k] == et[k]);
            } else {
                assert(tr[k] == vt[k - et.len()]);
            }
        }
        lemma_built_edges(n2 as nat, tr);
        assert forall|v: int| 0 <= v < nn implies -i64::MAX <= #[trigger] adjusted(ds, es, v) <= i64::MAX by {
            lemma_vertex_cap_total_mono(ds, es, v, v);
            lemma_vertex_cap_total_mono(ds, es, v + 1, nn);
            lemma_edge_cap_total_nonneg(es, es.len() as int);
        }
        assert(g.wf());
        assert(is_circulation_reduction(nn, ds, es, orig, ers, ow));
        // The network fits the cheapest-flow search.
        lemma_slot_count_built(n2 as nat, tr);
        lemma_edge_triples_len(es, es.len() as int);
        lemma_vertex_triples_len(nn, ds, es, nn);
        let sc = slot_count(orig, n2);
        assert(sc == 2 * (ne + nv));
        assert(n2 * sc <= n2 * (2 * (es.len() + nn))) by (nonlinear_arith)
            requires
                0 <= n2,
                0 <= sc <= 2 * (es.len() + nn),
        ;
        let caps = g.capacities();
        assert forall|j: int| 0 <= j < caps.len() implies #[trigger] caps[j] >= 0 by {}
        lemma_cost_limit_le(caps, ne, nv, ers.len() as int);
        lemma_edge_cap_total_nonneg(es, es.len() as int);
        lemma_vertex_cap_total_mono(ds, es, nn, nn);
        assert forall|k: int| 0 <= k < mnet.costs().len() implies #[trigger] mnet.costs()[k] >= 0 by {}
        lemma_nonnegative_costs_no_negative_cycle(mnet);
    }
    let result = min_cost_flow(&mnet, n, n + 1, required_flow);
    let ghost res = choose|res: Seq<Seq<Slot>>|
        #[trigger] min_cost_outcome(n2, orig, ers, cg, nn, nn + 1, required_flow as int, res, result.total_flow as int, result.total_cost as int);
    let ghost f = flow_of(orig, res, ers);
    proof {
        assert(min_cost_outcome(n2, orig, ers, cg, nn, nn + 1, required_flow as int, res, result.total_flow as int, result.total_cost as int));
        lemma_flow_of_bounds(orig, res, ers);
        // The cost of a flow is what the graph edges carry above their lower bounds.
        lemma_cost_is_prefix(f, ne, nv, ers.len() as int);
        lemma_gsum(es, f, es.len() as int);
        // Any circulation gives a flow of the required value, no cheaper than `f`.
        assert forall|c: Seq<(usize, usize, i128)>| #[trigger] is_circulation(ds, es, c) implies {
            &&& result.total_flow == required_flow
            &&& lower_total(es, es.len() as int) + result.total_cost <= flow_sum(c, c.len() as int)
        } by {
            lemma_circulation_gives_flow(nn, ds, es, orig, ers, ow, c);
            let h = reduction_flow(nn, ds, es, c);
            lemma_value_at_most_required(nn, ds, es, orig, ers, ow, res);
            assert(is_min_cost_flow(n2, ers, g.capacities(), mnet.costs(), f, nn, nn + 1));
            lemma_cost_is_prefix(h, ne, nv, ers.len() as int);
            lemma_gsum(es, h, es.len() as int);
            lemma_flow_sum_split(es, c, h, es.len() as int);
        }
    }
    if result.total_flow == required_flow {
        let lower = lower_sum(&network.edges);
        proof {
            lemma_feasible_is_circulation(nn, ds, es, orig, ers, ow, res);
            let circ = circulation_flows(es, f);
            assert forall|k: int| #![trigger circ[k]] 0 <= k < es.len() implies circ[k].2 as int == es[k].2 + gflow(es, f, k) by {
                assert(es[k] == es[k]);
                if es[k].3 > es[k].2 {
                    let p = edge_triples(es, k).len() as int;
                    lemma_edge_entry_at(es, k, es.len() as int);
                    assert(tr[p] == et[p]);
                    assert(ers[p] == ers[p]);
                    assert(0 <= f[p] <= caps_of(orig, ers)[p]);
                    assert(caps_of(orig, ers)[p] == es[k].3 - es[k].2);
                    assert(gflow(es, f, k) == f[p]);
                }
            }
            lemma_flow_sum_split(es, circ, f, es.len() as int);
            lemma_pre_sum_le_caps(f, g.capacities(), ne);
            assert(mnet.costs() == reduction_costs(ne, nv));
            assert(result.total_cost == flow_cost(f, mnet.costs(), ers.len() as int));
            assert(result.total_cost == pre_sum(f, ne));
            assert(lower + result.total_cost == flow_sum(circ, circ.len() as int));
            assert(is_circulation(ds, es, circ));
            lemma_lower_total_mono(es, 0, es.len() as int);
            assert(lower + result.total_cost >= 0);
            lemma_cap_total_mono(g.capacities(), ne, ers.len() as int);
            lemma_edge_cap_total_nonneg(es, es.len() as int);
            lemma_vertex_cap_total_mono(ds, es, nn, nn);
        }
        lower + result.total_cost
    } else {
        proof {
            assert(!exists|c: Seq<(usize, usize, i128)>| #[trigger] is_circulation(ds, es, c));
        }
        -1
    }
}

} // verus!
