//! Minimum-cost maximum flow algorithm.
//!
//! Computes a flow that achieves maximum throughput at minimum total cost,
//! using successive shortest path augmentation with Bellman-Ford.
//!
//! Every slot of the network carries a cost per unit: an edge's forward slot
//! its cost, its reverse slot the opposite, so that pushing flow back along
//! a reverse slot gives the cost back.
use vstd::prelude::*;

use crate::flow_spec::{
    augmented, bounds_ok, caps_of, closed, count_false, deep, edges_ok, flow_of, is_cut, is_max_flow_value,
    is_min_cut_value, is_walk, law_closed_cut_certifies_max_flow, lemma_augment_slot, lemma_count_false_mono,
    lemma_flow_of_bounds, lemma_shape_bounds, lemma_zero_flow, net, network_ok, reachable, residual_ok, same_shape, walk_step,
    EdgeRef, Slot,
};
use crate::cost_spec::{
    cost_limit, costs_ok, edge_costs, flow_cost, has_potential, lemma_flow_cost_bound, lemma_flow_cost_update,
    is_min_cost_flow, law_potential_certifies_min_cost, lemma_augment_potential, lemma_flow_cost_zero,
    lemma_potential_no_negative_cycle, lemma_short_walk, law_potential_iff_no_negative_cycle, lemma_walk_prefix, lemma_walk_push, negative_cycle, reachable_negative_cycle,
    potential_ok, walk_cost,
};
use crate::{all_false, copy_slots};
use crate::max_flow::slot_count;
use crate::{added_slots, new_edge_ref, FlowNetwork};

verus! {

/// An edge with both capacity and cost.
#[derive(Clone, Debug)]
pub struct CostEdge {
    pub from: usize,
    pub to: usize,
    pub capacity: u64,
    pub cost: i64,
}

/// Result of min-cost max-flow computation.
#[derive(Debug, Clone)]
pub struct MinCostFlowResult {
    /// Total flow sent.
    pub total_flow: u64,
    /// Total cost of the flow.
    pub total_cost: i128,
}

/// The cost table of an executable network, as nested sequences.
pub open spec fn deep_costs(c: Seq<Vec<i64>>) -> Seq<Seq<i64>> {
    c.map_values(|r: Vec<i64>| r@)
}

/// The cost table after `add_edge(from, to, _, cost)`.
pub open spec fn added_costs(c: Seq<Seq<i64>>, from: usize, to: usize, cost: i64) -> Seq<Seq<i64>> {
    let c1 = c.update(from as int, c[from as int].push(cost));
    c1.update(to as int, c1[to as int].push((-cost) as i64))
}

/// A min-cost flow network.
#[derive(Clone)]
pub struct MinCostNetwork {
    /// The capacities, as a flow network.
    net: FlowNetwork,
    /// costs[u][i] is the cost per unit of the slot adj[u][i].
    costs: Vec<Vec<i64>>,
}

impl MinCostNetwork {
    /// The underlying capacity network.
    pub closed spec fn graph(&self) -> FlowNetwork {
        self.net
    }

    /// The cost per unit of every slot.
    pub closed spec fn slot_costs(&self) -> Seq<Seq<i64>> {
        deep_costs(self.costs@)
    }

    /// The cost per unit of every edge.
    pub open spec fn costs(&self) -> Seq<int> {
        edge_costs(self.graph().edge_refs(), self.slot_costs())
    }

    /// The network is one that `new` and `add_edge` can build.
    pub open spec fn wf(&self) -> bool {
        &&& self.graph().wf()
        &&& costs_ok(self.graph().slots(), self.graph().edge_refs(), self.slot_costs())
    }

    /// Create a new min-cost flow network with `n` vertices.
    pub fn new(n: usize) -> (net: Self)
        ensures
            net.wf(),
            net.graph().vertices() == n,
            net.graph().slots() == Seq::new(n as nat, |u: int| Seq::<Slot>::empty()),
            net.graph().edge_refs() == Seq::<EdgeRef>::empty(),
            net.slot_costs() == Seq::new(n as nat, |u: int| Seq::<i64>::empty()),
    {
        let g = FlowNetwork::new(n);
        let mut costs: Vec<Vec<i64>> = Vec::new();
        let mut i: usize = 0;
        while i < n
            invariant
                i <= n,
                costs@.len() == i,
                forall|u: int| 0 <= u < i ==> costs@[u]@ == Seq::<i64>::empty(),
            decreases n - i,
        {
            costs.push(Vec::new());
            i = i + 1;
        }
        let net = MinCostNetwork { net: g, costs };
        assert(net.slot_costs() =~= Seq::new(n as nat, |u: int| Seq::<i64>::empty()));
        net
    }

    /// The underlying capacity network.
    pub(crate) fn flow_part(&self) -> (g: &FlowNetwork)
        ensures
            *g == self.graph(),
    {
        &self.net
    }

    /// Number of vertices.
    pub fn vertex_count(&self) -> (n: usize)
        ensures
            n == self.graph().vertices(),
    {
        self.net.vertex_count()
    }

    /// Add a directed edge with capacity and cost per unit.
    pub fn add_edge(&mut self, from: usize, to: usize, capacity: u64, cost: i64)
        requires
            old(self).wf(),
            from < old(self).graph().vertices(),
            to < old(self).graph().vertices(),
            cost > i64::MIN,
        ensures
            final(self).wf(),
            final(self).graph().vertices() == old(self).graph().vertices(),
            final(self).graph().slots() == added_slots(old(self).graph().slots(), from, to, capacity),
            final(self).graph().edge_refs() == old(self).graph().edge_refs().push(
                new_edge_ref(old(self).graph().slots(), from as int, to as int),
            ),
            final(self).graph().total_capacity() == old(self).graph().total_capacity() + capacity,
            final(self).slot_costs() == added_costs(old(self).slot_costs(), from, to, cost),
            final(self).costs() == old(self).costs().push(cost as int),
    {
        let ghost a = self.net.slots();
        let ghost es = self.net.edge_refs();
        let ghost c = self.slot_costs();
        self.net.add_edge(from, to, capacity);
        self.costs[from].push(cost);
        self.costs[to].push(-cost);
        proof {
            let c2 = added_costs(c, from, to, cost);
            assert(self.slot_costs() =~= c2);
            let b = self.net.slots();
            let es2 = self.net.edge_refs();
            assert(b == added_slots(a, from, to, capacity));
            assert forall|u: int| #![trigger c2[u]] 0 <= u < b.len() implies c2[u].len() == b[u].len() by {}
            assert forall|k: int| #![trigger es2[k]] 0 <= k < es2.len() implies c2[es2[k].to][es2[k].ti]
                == -c2[es2[k].from][es2[k].fi] by {
                if k < es.len() {
                    assert(es2[k] == es[k]);
                    assert(a[es[k].from].len() == c[es[k].from].len());
                    assert(a[es[k].to].len() == c[es[k].to].len());
                    assert(c2[es[k].from][es[k].fi] == c[es[k].from][es[k].fi]);
                    assert(c2[es[k].to][es[k].ti] == c[es[k].to][es[k].ti]);
                }
            }
            assert(self.costs() =~= edge_costs(es, c).push(cost as int)) by {
                assert forall|k: int| 0 <= k < es.len() implies self.costs()[k] == edge_costs(es, c)[k] by {
                    assert(es2[k] == es[k]);
                    assert(a[es[k].from].len() == c[es[k].from].len());
                }
            }
        }
    }
}


/// Which vertices have a distance.
pub open spec fn finite(dist: Seq<Option<i128>>) -> Seq<bool> {
    Seq::new(dist.len(), |v: int| dist[v] is Some)
}

/// The slot `(u, i)` may be the parent slot of `v` in a shortest-path tree:
/// it leads from `u` to `v` with capacity left, both ends have a distance,
/// and `v`'s distance is at least `u`'s plus the slot's cost.  When `u` got
/// its distance no earlier than `v` did, the inequality is strict.
pub open spec fn tree_slot_ok(
    res: Seq<Seq<Slot>>,
    cg: Seq<Seq<i64>>,
    dist: Seq<Option<i128>>,
    t: Seq<int>,
    u: int,
    i: int,
    v: int,
) -> bool {
    &&& 0 <= u < res.len()
    &&& 0 <= i < res[u].len()
    &&& res[u][i].0 == v
    &&& res[u][i].1 > 0
    &&& dist[u] is Some
    &&& dist[v] is Some
    &&& dist[v]->0 >= dist[u]->0 + cg[u][i]
    &&& t[u] >= t[v] ==> dist[v]->0 > dist[u]->0 + cg[u][i]
}

/// The distances and parent slots that Bellman-Ford maintains from `source`:
/// the source has a distance, every other vertex has one exactly when it has
/// a parent slot, and every parent slot is a tree slot.
pub open spec fn paths_ok(
    res: Seq<Seq<Slot>>,
    cg: Seq<Seq<i64>>,
    dist: Seq<Option<i128>>,
    parent: Seq<Option<(usize, usize)>>,
    t: Seq<int>,
    source: int,
) -> bool {
    &&& dist.len() == res.len()
    &&& parent.len() == res.len()
    &&& t.len() == res.len()
    &&& 0 <= source < res.len()
    &&& dist[source] is Some
    &&& forall|v: int| #![trigger parent[v]] 0 <= v < res.len() && v != source ==> (dist[v] is Some <==> parent[v] is Some)
    &&& forall|v: int|
        #![trigger parent[v]]
        0 <= v < res.len() && parent[v] is Some ==> tree_slot_ok(
            res,
            cg,
            dist,
            t,
            (parent[v]->0).0 as int,
            (parent[v]->0).1 as int,
            v,
        )
}

/// A cost table with one entry per slot of `res`.
pub open spec fn cost_shape(res: Seq<Seq<Slot>>, cg: Seq<Seq<i64>>) -> bool {
    &&& cg.len() == res.len()
    &&& forall|u: int| #![trigger cg[u]] 0 <= u < res.len() ==> cg[u].len() == res[u].len()
}

/// Every distance lies within `b` of 0.
pub open spec fn dist_within(dist: Seq<Option<i128>>, b: int) -> bool {
    forall|v: int| #![trigger dist[v]] 0 <= v < dist.len() && dist[v] is Some ==> -b <= dist[v]->0 <= b
}

proof fn lemma_slot_count_mono(a: Seq<Seq<Slot>>, m: int, k: int)
    requires
        0 <= m <= k <= a.len(),
    ensures
        0 <= slot_count(a, m) <= slot_count(a, k),
    decreases k,
{
    if k > m {
        lemma_slot_count_mono(a, m, k - 1);
    } else if m > 0 {
        lemma_slot_count_mono(a, m - 1, m - 1);
    }
}

/// Some walk from `s` to `v` through slots with capacity left costs `c`.
pub open spec fn walk_to(res: Seq<Seq<Slot>>, cg: Seq<Seq<i64>>, s: int, v: int, c: int) -> bool {
    exists|p: Seq<int>, q: Seq<int>|
        #[trigger] is_walk(res, p, q) && p[0] == s && p.last() == v && walk_cost(cg, p, q, q.len() as int) == c
}

/// Every distance is the cost of some walk from `s`.
pub open spec fn dists_are_walks(res: Seq<Seq<Slot>>, cg: Seq<Seq<i64>>, dist: Seq<Option<i128>>, s: int) -> bool {
    forall|v: int| 0 <= v < dist.len() && dist[v] is Some ==> #[trigger] walk_to(res, cg, s, v, dist[v]->0 as int)
}

/// The walk `(p, q)` ends at a vertex whose distance is at most its cost.
pub open spec fn dist_below(dist: Seq<Option<i128>>, cg: Seq<Seq<i64>>, p: Seq<int>, q: Seq<int>) -> bool {
    &&& 0 <= p.last() < dist.len()
    &&& dist[p.last()] is Some
    &&& dist[p.last()]->0 <= walk_cost(cg, p, q, q.len() as int)
}

/// Every walk from `s` of at most `k` steps costs at least the distance of its end.
pub open spec fn short_walks_bounded(
    res: Seq<Seq<Slot>>,
    cg: Seq<Seq<i64>>,
    dist: Seq<Option<i128>>,
    s: int,
    k: int,
) -> bool {
    forall|p: Seq<int>, q: Seq<int>|
        #[trigger] is_walk(res, p, q) && p[0] == s && q.len() <= k ==> dist_below(dist, cg, p, q)
}

/// Every walk from `s` of at most `k + 1` steps whose last slot comes before
/// slot `(u, i)` costs at least the distance of its end.
pub open spec fn done_walks_bounded(
    res: Seq<Seq<Slot>>,
    cg: Seq<Seq<i64>>,
    dist: Seq<Option<i128>>,
    s: int,
    k: int,
    u: int,
    i: int,
) -> bool {
    forall|p: Seq<int>, q: Seq<int>|
        #[trigger] is_walk(res, p, q) && p[0] == s && 1 <= q.len() <= k + 1 && (p[q.len() - 1] < u || (p[q.len() - 1]
            == u && q[q.len() - 1] < i)) ==> dist_below(dist, cg, p, q)
}

/// No slot with capacity left from a vertex with a distance can shorten the
/// distance of its target.
pub open spec fn relaxed(res: Seq<Seq<Slot>>, cg: Seq<Seq<i64>>, dist: Seq<Option<i128>>) -> bool {
    forall|u: int, i: int|
        #![trigger res[u][i]]
        0 <= u < res.len() && 0 <= i < res[u].len() && dist[u] is Some && res[u][i].1 > 0 ==> dist[res[u][i].0 as int] is Some
            && dist[res[u][i].0 as int]->0 <= dist[u]->0 + cg[u][i]
}

/// Every distance of `d1` is kept or lowered in `d2`.
pub open spec fn dist_le(d2: Seq<Option<i128>>, d1: Seq<Option<i128>>) -> bool {
    &&& d2.len() == d1.len()
    &&& forall|v: int| 0 <= v < d1.len() && d1[v] is Some ==> #[trigger] d2[v] is Some && d2[v]->0 <= d1[v]->0
}

proof fn lemma_bounds_mono(
    res: Seq<Seq<Slot>>,
    cg: Seq<Seq<i64>>,
    d1: Seq<Option<i128>>,
    d2: Seq<Option<i128>>,
    s: int,
    k: int,
    u: int,
    i: int,
)
    requires
        dist_le(d2, d1),
    ensures
        short_walks_bounded(res, cg, d1, s, k) ==> short_walks_bounded(res, cg, d2, s, k),
        done_walks_bounded(res, cg, d1, s, k, u, i) ==> done_walks_bounded(res, cg, d2, s, k, u, i),
{
    if short_walks_bounded(res, cg, d1, s, k) {
        assert forall|p: Seq<int>, q: Seq<int>| #[trigger] is_walk(res, p, q) && p[0] == s && q.len() <= k implies dist_below(
            d2,
            cg,
            p,
            q,
        ) by {
            assert(dist_below(d1, cg, p, q));
            assert(d2[p.last()] is Some);
        }
    }
    if done_walks_bounded(res, cg, d1, s, k, u, i) {
        assert forall|p: Seq<int>, q: Seq<int>|
            #[trigger] is_walk(res, p, q) && p[0] == s && 1 <= q.len() <= k + 1 && (p[q.len() - 1] < u || (p[q.len()
                - 1] == u && q[q.len() - 1] < i)) implies dist_below(d2, cg, p, q) by {
            assert(dist_below(d1, cg, p, q));
            assert(d2[p.last()] is Some);
        }
    }
}

/// Scanning slot `(u, i)` after lowering its target to at most `u`'s
/// distance plus the slot's cost settles the walks whose last slot it is.
proof fn lemma_done_slot(
    res: Seq<Seq<Slot>>,
    cg: Seq<Seq<i64>>,
    d1: Seq<Option<i128>>,
    d2: Seq<Option<i128>>,
    s: int,
    k: int,
    u: int,
    i: int,
)
    requires
        bounds_ok(res.len() as int, res),
        d1.len() == res.len(),
        0 <= u < res.len(),
        0 <= i < res[u].len(),
        short_walks_bounded(res, cg, d1, s, k),
        dist_le(d2, d1),
        done_walks_bounded(res, cg, d2, s, k, u, i),
        res[u][i].1 > 0 && d1[u] is Some ==> d2[res[u][i].0 as int] is Some && d2[res[u][i].0 as int]->0 <= d1[u]->0
            + cg[u][i],
    ensures
        done_walks_bounded(res, cg, d2, s, k, u, i + 1),
{
    assert forall|p: Seq<int>, q: Seq<int>|
        #[trigger] is_walk(res, p, q) && p[0] == s && 1 <= q.len() <= k + 1 && (p[q.len() - 1] < u || (p[q.len() - 1]
            == u && q[q.len() - 1] < i + 1)) implies dist_below(d2, cg, p, q) by {
        let l = q.len() - 1;
        if p[l] == u && q[l] == i {
            lemma_walk_prefix(res, cg, p, q);
            let p1 = p.drop_last();
            let q1 = q.drop_last();
            assert(is_walk(res, p1, q1));
            assert(dist_below(d1, cg, p1, q1));
            assert(walk_step(res, p, q, l));
            assert(p.last() == p[l + 1]);
        }
    }
}

/// A vertex without a distance ends no walk of at most `k` steps, so the
/// walks whose last slot leaves it have nothing to settle.
proof fn lemma_skip_row(res: Seq<Seq<Slot>>, cg: Seq<Seq<i64>>, d: Seq<Option<i128>>, s: int, k: int, u: int)
    requires
        d.len() == res.len(),
        0 <= u < res.len(),
        short_walks_bounded(res, cg, d, s, k),
        done_walks_bounded(res, cg, d, s, k, u, 0),
        d[u] is None,
    ensures
        done_walks_bounded(res, cg, d, s, k, u + 1, 0),
{
    assert forall|p: Seq<int>, q: Seq<int>|
        #[trigger] is_walk(res, p, q) && p[0] == s && 1 <= q.len() <= k + 1 && (p[q.len() - 1] < u + 1 || (p[q.len()
            - 1] == u + 1 && q[q.len() - 1] < 0)) implies dist_below(d, cg, p, q) by {
        let l = q.len() - 1;
        assert(walk_step(res, p, q, l));
        if p[l] == u {
            lemma_walk_prefix(res, cg, p, q);
            assert(is_walk(res, p.drop_last(), q.drop_last()));
            assert(dist_below(d, cg, p.drop_last(), q.drop_last()));
        }
    }
}

proof fn lemma_row_done(res: Seq<Seq<Slot>>, cg: Seq<Seq<i64>>, d: Seq<Option<i128>>, s: int, k: int, u: int)
    requires
        0 <= u < res.len(),
        done_walks_bounded(res, cg, d, s, k, u, res[u].len() as int),
    ensures
        done_walks_bounded(res, cg, d, s, k, u + 1, 0),
{
    assert forall|p: Seq<int>, q: Seq<int>|
        #[trigger] is_walk(res, p, q) && p[0] == s && 1 <= q.len() <= k + 1 && (p[q.len() - 1] < u + 1 || (p[q.len()
            - 1] == u + 1 && q[q.len() - 1] < 0)) implies dist_below(d, cg, p, q) by {
        assert(walk_step(res, p, q, q.len() - 1));
    }
}

proof fn lemma_round_done(res: Seq<Seq<Slot>>, cg: Seq<Seq<i64>>, d: Seq<Option<i128>>, s: int, k: int)
    requires
        0 <= k,
        short_walks_bounded(res, cg, d, s, k),
        done_walks_bounded(res, cg, d, s, k, res.len() as int, 0),
    ensures
        short_walks_bounded(res, cg, d, s, k + 1),
{
    assert forall|p: Seq<int>, q: Seq<int>| #[trigger] is_walk(res, p, q) && p[0] == s && q.len() <= k + 1 implies dist_below(
        d,
        cg,
        p,
        q,
    ) by {
        if q.len() == k + 1 && k + 1 >= 1 {
            assert(walk_step(res, p, q, q.len() - 1));
        }
    }
}

/// Lowering `v`'s distance to `u`'s plus the cost of a slot from `u` to `v`
/// keeps every distance the cost of a walk.
proof fn lemma_walks_relax(
    res: Seq<Seq<Slot>>,
    cg: Seq<Seq<i64>>,
    d: Seq<Option<i128>>,
    s: int,
    u: int,
    i: int,
    nd: i128,
)
    requires
        d.len() == res.len(),
        dists_are_walks(res, cg, d, s),
        0 <= u < res.len(),
        0 <= i < res[u].len(),
        res[u][i].1 > 0,
        d[u] is Some,
        nd == d[u]->0 + cg[u][i],
        0 <= res[u][i].0 < res.len(),
    ensures
        dists_are_walks(res, cg, d.update(res[u][i].0 as int, Some(nd)), s),
{
    let v = res[u][i].0 as int;
    let d2 = d.update(v, Some(nd));
    assert(walk_to(res, cg, s, u, d[u]->0 as int));
    let (p, q) = choose|p: Seq<int>, q: Seq<int>|
        #[trigger] is_walk(res, p, q) && p[0] == s && p.last() == u && walk_cost(cg, p, q, q.len() as int) == d[u]->0;
    lemma_walk_push(res, cg, p, q, i);
    let p2 = p.push(v);
    let q2 = q.push(i);
    assert(is_walk(res, p2, q2) && p2[0] == s && p2.last() == v && walk_cost(cg, p2, q2, q2.len() as int) == nd);
    assert forall|w: int| 0 <= w < d2.len() && d2[w] is Some implies #[trigger] walk_to(res, cg, s, w, d2[w]->0 as int) by {
        if w != v {
            assert(walk_to(res, cg, s, w, d[w]->0 as int));
        }
    }
}

/// When a potential exists, after `n - 1` rounds no slot can lower a distance.
proof fn lemma_no_improvement(
    res: Seq<Seq<Slot>>,
    cg: Seq<Seq<i64>>,
    d: Seq<Option<i128>>,
    s: int,
    u: int,
    i: int,
)
    requires
        bounds_ok(res.len() as int, res),
        has_potential(res, cg),
        d.len() == res.len(),
        0 <= s < res.len(),
        dists_are_walks(res, cg, d, s),
        short_walks_bounded(res, cg, d, s, res.len() - 1),
        0 <= u < res.len(),
        0 <= i < res[u].len(),
        res[u][i].1 > 0,
        d[u] is Some,
    ensures
        d[res[u][i].0 as int] is Some,
        d[res[u][i].0 as int]->0 <= d[u]->0 + cg[u][i],
{
    let pi = choose|pi: Seq<int>| potential_ok(res, cg, pi);
    let v = res[u][i].0 as int;
    assert(walk_to(res, cg, s, u, d[u]->0 as int));
    let (p, q) = choose|p: Seq<int>, q: Seq<int>|
        #[trigger] is_walk(res, p, q) && p[0] == s && p.last() == u && walk_cost(cg, p, q, q.len() as int) == d[u]->0;
    lemma_walk_push(res, cg, p, q, i);
    let p2 = p.push(v);
    let q2 = q.push(i);
    assert(p2.last() == v);
    lemma_potential_no_negative_cycle(res, cg, pi);
    lemma_short_walk(res, cg, p2, q2);
    let (p3, q3) = choose|p3: Seq<int>, q3: Seq<int>|
        #[trigger] is_walk(res, p3, q3) && p3[0] == p2[0] && p3.last() == p2.last() && q3.len() < res.len()
            && walk_cost(cg, p3, q3, q3.len() as int) <= walk_cost(cg, p2, q2, q2.len() as int);
    assert(dist_below(d, cg, p3, q3));
}

/// How much the potential of the vertices without a distance must be raised
/// for slot `(x, j)`, leading from such a vertex to one with a distance, to
/// keep a nonnegative reduced cost.
pub open spec fn slot_need(res: Seq<Seq<Slot>>, cg: Seq<Seq<i64>>, dist: Seq<Option<i128>>, pi: Seq<int>, x: int, j: int) -> int {
    let y = res[x][j].0 as int;
    if dist[x] is None && dist[y] is Some && res[x][j].1 > 0 {
        dist[y]->0 - cg[x][j] - pi[x]
    } else {
        0
    }
}

/// The largest need of the first `m` slots of `x`, and 0.
pub open spec fn row_need(res: Seq<Seq<Slot>>, cg: Seq<Seq<i64>>, dist: Seq<Option<i128>>, pi: Seq<int>, x: int, m: int) -> int
    decreases m,
{
    if m <= 0 {
        0
    } else {
        let a = row_need(res, cg, dist, pi, x, m - 1);
        let b = slot_need(res, cg, dist, pi, x, m - 1);
        if a >= b {
            a
        } else {
            b
        }
    }
}

/// The largest need of the slots of the first `m` vertices, and 0.
pub open spec fn need(res: Seq<Seq<Slot>>, cg: Seq<Seq<i64>>, dist: Seq<Option<i128>>, pi: Seq<int>, m: int) -> int
    decreases m,
{
    if m <= 0 {
        0
    } else {
        let a = need(res, cg, dist, pi, m - 1);
        let b = row_need(res, cg, dist, pi, m - 1, res[m - 1].len() as int);
        if a >= b {
            a
        } else {
            b
        }
    }
}

proof fn lemma_row_need(res: Seq<Seq<Slot>>, cg: Seq<Seq<i64>>, dist: Seq<Option<i128>>, pi: Seq<int>, x: int, m: int, j: int)
    requires
        0 <= j < m,
    ensures
        row_need(res, cg, dist, pi, x, m) >= slot_need(res, cg, dist, pi, x, j),
    decreases m,
{
    if j < m - 1 {
        lemma_row_need(res, cg, dist, pi, x, m - 1, j);
    }
}

proof fn lemma_need(res: Seq<Seq<Slot>>, cg: Seq<Seq<i64>>, dist: Seq<Option<i128>>, pi: Seq<int>, m: int, x: int, j: int)
    requires
        0 <= x < m,
        0 <= j < res[x].len(),
    ensures
        need(res, cg, dist, pi, m) >= slot_need(res, cg, dist, pi, x, j),
    decreases m,
{
    if x < m - 1 {
        lemma_need(res, cg, dist, pi, m - 1, x, j);
    } else {
        lemma_row_need(res, cg, dist, pi, x, res[x].len() as int, j);
    }
}

/// The potential after a round of shortest paths: the distance where there
/// is one, else the old potential raised by the largest need.
pub open spec fn next_potential(res: Seq<Seq<Slot>>, cg: Seq<Seq<i64>>, dist: Seq<Option<i128>>, pi: Seq<int>) -> Seq<int> {
    let k = need(res, cg, dist, pi, res.len() as int);
    Seq::new(res.len(), |w: int| if dist[w] is Some { dist[w]->0 as int } else { pi[w] + k })
}

/// Shortest distances, closed and relaxed, make a potential together with
/// the old one.
proof fn lemma_next_potential(res: Seq<Seq<Slot>>, cg: Seq<Seq<i64>>, dist: Seq<Option<i128>>, pi: Seq<int>)
    requires
        bounds_ok(res.len() as int, res),
        dist.len() == res.len(),
        potential_ok(res, cg, pi),
        closed(res, finite(dist)),
        relaxed(res, cg, dist),
    ensures
        potential_ok(res, cg, next_potential(res, cg, dist, pi)),
{
    let n = res.len() as int;
    let pi2 = next_potential(res, cg, dist, pi);
    let k = need(res, cg, dist, pi, n);
    assert forall|x: int, j: int|
        #![trigger res[x][j]]
        0 <= x < res.len() && 0 <= j < res[x].len() && res[x][j].1 > 0 implies cg[x][j] + pi2[x] - pi2[res[x][j].0 as int]
        >= 0 by {
        let y = res[x][j].0 as int;
        assert(0 <= y < n);
        if dist[x] is Some {
            assert(finite(dist)[x]);
            assert(finite(dist)[y]);
        } else if dist[y] is Some {
            lemma_need(res, cg, dist, pi, n, x, j);
        }
    }
}

/// Bellman-Ford from `source` over the slots with capacity left, for at most
/// `n` rounds, stopping after a round that changes nothing.  The vertices
/// left with a distance are closed in `adj`.  When `adj` has a potential,
/// the distances are shortest: no slot can lower one.
#[verifier::rlimit(50)]
fn bellman_ford(
    adj: &Vec<Vec<Slot>>,
    costs: &Vec<Vec<i64>>,
    source: usize,
    Ghost(n): Ghost<int>,
) -> (out: (Vec<Option<i128>>, Vec<Option<(usize, usize)>>, Ghost<Seq<int>>))
    requires
        bounds_ok(n, deep(adj@)),
        cost_shape(deep(adj@), deep_costs(costs@)),
        source < n,
        n * slot_count(deep(adj@), n) <= u64::MAX,
    ensures
        paths_ok(deep(adj@), deep_costs(costs@), out.0@, out.1@, out.2@, source as int),
        dists_are_walks(deep(adj@), deep_costs(costs@), out.0@, source as int),
        closed(deep(adj@), finite(out.0@)),
        has_potential(deep(adj@), deep_costs(costs@)) ==> relaxed(deep(adj@), deep_costs(costs@), out.0@),
{
    let ghost res = deep(adj@);
    let ghost cg = deep_costs(costs@);
    let ghost sc = slot_count(res, n);
    let ghost s = source as int;
    let nv = adj.len();
    let mut dist: Vec<Option<i128>> = Vec::new();
    let mut parent: Vec<Option<(usize, usize)>> = Vec::new();
    let mut k: usize = 0;
    while k < nv
        invariant
            k <= nv,
            nv == n,
            dist@ == Seq::new(k as nat, |x: int| None::<i128>),
            parent@ == Seq::new(k as nat, |x: int| None::<(usize, usize)>),
        decreases nv - k,
    {
        dist.push(None);
        parent.push(None);
        k = k + 1;
        assert(dist@ =~= Seq::new(k as nat, |x: int| None::<i128>));
        assert(parent@ =~= Seq::new(k as nat, |x: int| None::<(usize, usize)>));
    }
    dist.set(source, Some(0i128));
    let ghost mut t: Seq<int> = Seq::new(n as nat, |x: int| 0int);
    let ghost mut clock: int = 1;
    let ghost mut base: int = 0;
    proof {
        lemma_slot_count_mono(res, 0, n);
        lemma_count_false_mono(finite(dist@), finite(dist@), n, 0);
        assert(count_false(finite(dist@), n) <= n - 1) by {
            let none = Seq::new(n as nat, |x: int| false);
            lemma_count_none(none, n);
            lemma_count_false_mono(none, finite(dist@), n, source as int);
        }
        assert(walk_to(res, cg, s, s, 0)) by {
            let p = seq![s];
            let q = Seq::<int>::empty();
            assert(is_walk(res, p, q));
        }
        assert(dists_are_walks(res, cg, dist@, s));
        assert forall|p: Seq<int>, q: Seq<int>| #[trigger] is_walk(res, p, q) && p[0] == s && q.len() <= 0 implies dist_below(
            dist@,
            cg,
            p,
            q,
        ) by {
            assert(p.last() == p[0]);
        }
    }
    let mut round: usize = 0;
    let mut settled = false;
    while round < nv && !settled
        invariant
            bounds_ok(n, res),
            cost_shape(res, cg),
            res == deep(adj@),
            cg == deep_costs(costs@),
            nv == n,
            source < n,
            s == source,
            sc == slot_count(res, n),
            0 <= sc,
            n * sc <= u64::MAX,
            round <= n,
            base == round * sc,
            paths_ok(res, cg, dist@, parent@, t, source as int),
            forall|x: int| 0 <= x < n ==> #[trigger] t[x] < clock,
            dist_within(dist@, base * 0x8000_0000_0000_0000),
            settled ==> closed(res, finite(dist@)),
            closed(res, finite(dist@)) || count_false(finite(dist@), n) <= n - 1 - round,
            dists_are_walks(res, cg, dist@, s),
            short_walks_bounded(res, cg, dist@, s, round as int),
            settled ==> relaxed(res, cg, dist@),
            !settled && round == n ==> !has_potential(res, cg),
        decreases n - round, (if settled { 0int } else { 1 }),
    {
        assert(base + sc <= n * sc) by (nonlinear_arith)
            requires
                base == round * sc,
                round < n,
                0 <= sc,
        ;
        let ghost d0 = dist@;
        let ghost f0 = finite(dist@);
        let mut updated = false;
        let mut u: usize = 0;
        assert forall|p: Seq<int>, q: Seq<int>|
            #[trigger] is_walk(res, p, q) && p[0] == s && 1 <= q.len() <= round + 1 && (p[q.len() - 1] < 0 || (p[q.len()
                - 1] == 0 && q[q.len() - 1] < 0)) implies dist_below(dist@, cg, p, q) by {
            assert(walk_step(res, p, q, q.len() - 1));
        }
        while u < nv
            invariant
                bounds_ok(n, res),
                cost_shape(res, cg),
                res == deep(adj@),
                cg == deep_costs(costs@),
                nv == n,
                source < n,
                s == source,
                round < n,
                sc == slot_count(res, n),
                base + sc <= n * sc,
                n * sc <= u64::MAX,
                u <= n,
                paths_ok(res, cg, dist@, parent@, t, source as int),
                forall|x: int| 0 <= x < n ==> #[trigger] t[x] < clock,
                dist_within(dist@, (base + slot_count(res, u as int)) * 0x8000_0000_0000_0000),
                f0.len() == n,
                forall|x: int| 0 <= x < n && f0[x] ==> #[trigger] dist@[x] is Some,
                closed(res, f0) ==> finite(dist@) == f0,
                forall|x: int, j: int|
                    0 <= x < u && 0 <= j < res[x].len() && f0[x] && #[trigger] res[x][j].1 > 0 ==> dist@[res[x][j].0 as int] is Some,
                !updated ==> dist@ == d0,
                d0.len() == n,
                f0 == finite(d0),
                dists_are_walks(res, cg, dist@, s),
                short_walks_bounded(res, cg, dist@, s, round as int),
                done_walks_bounded(res, cg, dist@, s, round as int, u as int, 0),
                round + 1 == n && has_potential(res, cg) ==> !updated,
                !updated ==> forall|x: int, j: int|
                    0 <= x < u && 0 <= j < res[x].len() && d0[x] is Some && #[trigger] res[x][j].1 > 0 ==> d0[res[x][j].0 as int] is Some
                        && d0[res[x][j].0 as int]->0 <= d0[x]->0 + cg[x][j],
            decreases n - u,
        {
            proof {
                lemma_slot_count_mono(res, u as int + 1, n);
            }
            if dist[u].is_some() {
                let len = adj[u].len();
                let mut i: usize = 0;
                while i < len
                    invariant
                        bounds_ok(n, res),
                        cost_shape(res, cg),
                        res == deep(adj@),
                        cg == deep_costs(costs@),
                        nv == n,
                        source < n,
                        s == source,
                        round < n,
                        sc == slot_count(res, n),
                        base + sc <= n * sc,
                        n * sc <= u64::MAX,
                        u < n,
                        len == res[u as int].len(),
                        i <= len,
                        slot_count(res, u as int + 1) <= sc,
                        paths_ok(res, cg, dist@, parent@, t, source as int),
                        dist@[u as int] is Some,
                        forall|x: int| 0 <= x < n ==> #[trigger] t[x] < clock,
                        dist_within(dist@, (base + slot_count(res, u as int) + i) * 0x8000_0000_0000_0000),
                        f0.len() == n,
                        forall|x: int| 0 <= x < n && f0[x] ==> #[trigger] dist@[x] is Some,
                        closed(res, f0) ==> finite(dist@) == f0,
                        forall|x: int, j: int|
                            0 <= x < u && 0 <= j < res[x].len() && f0[x] && #[trigger] res[x][j].1 > 0 ==> dist@[res[x][j].0 as int] is Some,
                        forall|j: int|
                            0 <= j < i && #[trigger] res[u as int][j].1 > 0 ==> dist@[res[u as int][j].0 as int] is Some,
                        !updated ==> dist@ == d0,
                        d0.len() == n,
                        f0 == finite(d0),
                        dists_are_walks(res, cg, dist@, s),
                        short_walks_bounded(res, cg, dist@, s, round as int),
                        done_walks_bounded(res, cg, dist@, s, round as int, u as int, i as int),
                        round + 1 == n && has_potential(res, cg) ==> !updated,
                        !updated ==> forall|x: int, j: int|
                            0 <= x < u && 0 <= j < res[x].len() && d0[x] is Some && #[trigger] res[x][j].1 > 0 ==> d0[res[x][j].0 as int] is Some
                                && d0[res[x][j].0 as int]->0 <= d0[x]->0 + cg[x][j],
                        !updated ==> forall|j: int|
                            0 <= j < i && #[trigger] res[u as int][j].1 > 0 ==> d0[res[u as int][j].0 as int] is Some
                                && d0[res[u as int][j].0 as int]->0 <= d0[u as int]->0 + cg[u as int][j],
                    decreases len - i,
                {
                    let (v, cap, _rev) = adj[u][i];
                    assert(cg[u as int] == costs@[u as int]@);
                    let c = costs[u][i];
                    assert(res[u as int][i as int] == (v, cap, _rev));
                    assert(cg[u as int][i as int] == c);
                    let ghost dprev = dist@;
                    if cap > 0 {
                        let du = dist[u].unwrap();
                        assert(-((base + slot_count(res, u as int) + i) * 0x8000_0000_0000_0000) <= du <= (base
                            + slot_count(res, u as int) + i) * 0x8000_0000_0000_0000);
                        assert(base + slot_count(res, u as int) + i + 1 <= n * sc);
                        let nd = du + c as i128;
                        let better = match dist[v] {
                            None => true,
                            Some(dv) => nd < dv,
                        };
                        proof {
                            if round + 1 == n && has_potential(res, cg) {
                                lemma_no_improvement(res, cg, dist@, s, u as int, i as int);
                            }
                        }
                        if better {
                            let ghost pprev = parent@;
                            let ghost tprev = t;
                            dist.set(v, Some(nd));
                            parent.set(v, Some((u, i)));
                            proof {
                                t = t.update(v as int, clock);
                                clock = clock + 1;
                                lemma_relax(res, cg, dprev, pprev, tprev, source as int, u, i, nd, clock - 1);
                                assert(dist@ == dprev.update(v as int, Some(nd)));
                                assert(parent@ == pprev.update(v as int, Some((u, i))));
                                if closed(res, f0) {
                                    assert(f0[u as int]);
                                    assert(f0[v as int]);
                                    assert(finite(dist@) =~= finite(dprev));
                                }
                                lemma_walks_relax(res, cg, dprev, s, u as int, i as int, nd);
                            }
                            updated = true;
                        }
                    }
                    proof {
                        assert(dist_le(dist@, dprev));
                        lemma_bounds_mono(res, cg, dprev, dist@, s, round as int, u as int, i as int);
                        lemma_done_slot(res, cg, dprev, dist@, s, round as int, u as int, i as int);
                    }
                    i = i + 1;
                }
                proof {
                    lemma_row_done(res, cg, dist@, s, round as int, u as int);
                }
            } else {
                proof {
                    lemma_skip_row(res, cg, dist@, s, round as int, u as int);
                }
            }
            u = u + 1;
        }
        proof {
            let fin = finite(dist@);
            assert forall|x: int| 0 <= x < n && f0[x] implies #[trigger] fin[x] by {
                assert(dist@[x] is Some);
            }
            if fin =~= f0 {
                assert(closed(res, fin)) by {
                    assert forall|x: int, j: int|
                        #![trigger res[x][j]]
                        0 <= x < res.len() && 0 <= j < res[x].len() && fin[x] && res[x][j].1 > 0 implies fin[res[x][j].0 as int] by {
                        assert(f0[x]);
                        assert(dist@[res[x][j].0 as int] is Some);
                    }
                }
            } else {
                let x = choose|x: int| 0 <= x < n && fin[x] != f0[x];
                assert(fin[x] && !f0[x]);
                lemma_count_false_mono(f0, fin, n, x);
                if closed(res, f0) {
                    assert(fin == f0);
                }
            }
            assert((round + 1) * sc == round * sc + sc) by (nonlinear_arith);
            base = base + sc;
            lemma_round_done(res, cg, dist@, s, round as int);
            if !updated {
                assert(relaxed(res, cg, dist@)) by {
                    assert forall|x: int, j: int|
                        #![trigger res[x][j]]
                        0 <= x < res.len() && 0 <= j < res[x].len() && dist@[x] is Some && res[x][j].1 > 0 implies dist@[res[x][j].0 as int] is Some
                            && dist@[res[x][j].0 as int]->0 <= dist@[x]->0 + cg[x][j] by {
                        assert(d0[x] is Some);
                    }
                }
            }
        }
        if !updated {
            settled = true;
        }
        round = round + 1;
    }
    proof {
        if !closed(res, finite(dist@)) {
            lemma_count_false_mono(finite(dist@), finite(dist@), n, 0);
        }
    }
    (dist, parent, Ghost(t))
}

proof fn lemma_count_none(s: Seq<bool>, m: int)
    requires
        0 <= m <= s.len(),
        forall|x: int| 0 <= x < s.len() ==> !s[x],
    ensures
        count_false(s, m) == m,
    decreases m,
{
    if m > 0 {
        lemma_count_none(s, m - 1);
    }
}

/// Lowering `v`'s distance to `nd` through the slot `(u, i)`, at time
/// `clock`, keeps the tree slots.
proof fn lemma_relax(
    res: Seq<Seq<Slot>>,
    cg: Seq<Seq<i64>>,
    dist: Seq<Option<i128>>,
    parent: Seq<Option<(usize, usize)>>,
    t: Seq<int>,
    source: int,
    u: usize,
    i: usize,
    nd: i128,
    clock: int,
)
    requires
        bounds_ok(res.len() as int, res),
        paths_ok(res, cg, dist, parent, t, source),
        forall|x: int| 0 <= x < res.len() ==> #[trigger] t[x] < clock,
        u < res.len(),
        i < res[u as int].len(),
        res[u as int][i as int].1 > 0,
        dist[u as int] is Some,
        nd == dist[u as int]->0 + cg[u as int][i as int],
        dist[res[u as int][i as int].0 as int] is None || nd < dist[res[u as int][i as int].0 as int]->0,
    ensures
        ({
            let v = res[u as int][i as int].0 as int;
            paths_ok(
                res,
                cg,
                dist.update(v, Some(nd)),
                parent.update(v, Some((u, i))),
                t.update(v, clock),
                source,
            )
        }),
{
    let v = res[u as int][i as int].0 as int;
    let d2 = dist.update(v, Some(nd));
    let p2 = parent.update(v, Some((u, i)));
    let t2 = t.update(v, clock);
    assert forall|y: int| #![trigger p2[y]] 0 <= y < res.len() && p2[y] is Some implies tree_slot_ok(
        res,
        cg,
        d2,
        t2,
        (p2[y]->0).0 as int,
        (p2[y]->0).1 as int,
        y,
    ) by {
        if y == v {
            assert(p2[y] == Some((u, i)));
            assert(t2[v] == clock);
            if u as int == v {
                assert(nd < dist[u as int]->0);
                assert(d2[u as int] == Some(nd));
            } else {
                assert(d2[u as int] == dist[u as int]);
                assert(t2[u as int] == t[u as int]);
                assert(t[u as int] < clock);
            }
        } else {
            assert(p2[y] == parent[y]);
            assert(tree_slot_ok(res, cg, dist, t, (parent[y]->0).0 as int, (parent[y]->0).1 as int, y));
            let x = (parent[y]->0).0 as int;
            let j = (parent[y]->0).1 as int;
            assert(d2[y] == dist[y]);
            assert(t2[y] == t[y]);
            if x == v {
                assert(dist[v] is Some);
                assert(nd < dist[v]->0);
                assert(d2[x] == Some(nd));
                assert(dist[y]->0 >= dist[v]->0 + cg[x][j]);
            } else {
                assert(d2[x] == dist[x]);
                assert(t2[x] == t[x]);
            }
        }
    }
    assert forall|y: int| #![trigger p2[y]] 0 <= y < res.len() && y != source implies (d2[y] is Some <==> p2[y] is Some) by {
        if y != v {
            assert(parent[y] == p2[y]);
        }
    }
}


/// A path traced backwards: `chain` lists its vertices from the last to the
/// first, all distinct, and `steps[k]` is the slot from `chain[k + 1]` to
/// `chain[k]`, with capacity left.
pub open spec fn back_path(res: Seq<Seq<Slot>>, chain: Seq<int>, steps: Seq<(usize, usize)>) -> bool {
    &&& chain.len() == steps.len() + 1
    &&& forall|k: int| #![trigger chain[k]] 0 <= k < chain.len() ==> 0 <= chain[k] < res.len()
    &&& forall|j: int, k: int| 0 <= j < k < chain.len() ==> #[trigger] chain[j] != #[trigger] chain[k]
    &&& forall|k: int|
        #![trigger steps[k]]
        0 <= k < steps.len() ==> {
            &&& steps[k].0 as int == chain[k + 1]
            &&& (steps[k].1 as int) < res[chain[k + 1]].len()
            &&& res[chain[k + 1]][steps[k].1 as int].0 as int == chain[k]
            &&& res[chain[k + 1]][steps[k].1 as int].1 > 0
        }
}

/// Step `l` of the walk `p` goes through the parent slot of `p[l + 1]`.
pub open spec fn parent_step(res: Seq<Seq<Slot>>, parent: Seq<Option<(usize, usize)>>, p: Seq<int>, q: Seq<int>, l: int) -> bool {
    &&& 0 <= p[l + 1] < res.len()
    &&& parent[p[l + 1]] is Some
    &&& (parent[p[l + 1]]->0).0 as int == p[l]
    &&& (parent[p[l + 1]]->0).1 as int == q[l]
}

/// Along a walk of parent slots, distances grow at least by the walk's cost,
/// and strictly unless the times grow all along.
proof fn lemma_parent_walk(
    res: Seq<Seq<Slot>>,
    cg: Seq<Seq<i64>>,
    dist: Seq<Option<i128>>,
    parent: Seq<Option<(usize, usize)>>,
    t: Seq<int>,
    source: int,
    p: Seq<int>,
    q: Seq<int>,
    m: int,
)
    requires
        paths_ok(res, cg, dist, parent, t, source),
        p.len() == q.len() + 1,
        0 <= m <= q.len(),
        0 <= p[0] < res.len(),
        dist[p[0]] is Some,
        forall|l: int| 0 <= l < q.len() ==> #[trigger] parent_step(res, parent, p, q, l),
    ensures
        dist[p[m]] is Some,
        dist[p[m]]->0 - dist[p[0]]->0 >= walk_cost(cg, p, q, m),
        dist[p[m]]->0 - dist[p[0]]->0 > walk_cost(cg, p, q, m) || (m > 0 ==> t[p[0]] < t[p[m]]),
    decreases m,
{
    if m > 0 {
        lemma_parent_walk(res, cg, dist, parent, t, source, p, q, m - 1);
        let l = m - 1;
        assert(parent_step(res, parent, p, q, l));
        assert(tree_slot_ok(res, cg, dist, t, (parent[p[m]]->0).0 as int, (parent[p[m]]->0).1 as int, p[m]));
        assert(q[l] == q[l]);
    }
}

/// A cycle of parent slots has a negative cost.
proof fn lemma_parent_cycle(
    res: Seq<Seq<Slot>>,
    cg: Seq<Seq<i64>>,
    dist: Seq<Option<i128>>,
    parent: Seq<Option<(usize, usize)>>,
    t: Seq<int>,
    source: int,
    p: Seq<int>,
    q: Seq<int>,
)
    requires
        paths_ok(res, cg, dist, parent, t, source),
        p.len() == q.len() + 1,
        q.len() > 0,
        p[0] == p.last(),
        0 <= p[0] < res.len(),
        dist[p[0]] is Some,
        forall|l: int| 0 <= l < q.len() ==> #[trigger] parent_step(res, parent, p, q, l),
    ensures
        is_walk(res, p, q),
        walk_cost(cg, p, q, q.len() as int) < 0,
{
    lemma_parent_walk(res, cg, dist, parent, t, source, p, q, q.len() as int);
    assert forall|k: int| 0 <= k < q.len() implies #[trigger] walk_step(res, p, q, k) by {
        assert(parent_step(res, parent, p, q, k));
        assert(tree_slot_ok(res, cg, dist, t, (parent[p[k + 1]]->0).0 as int, (parent[p[k + 1]]->0).1 as int, p[k + 1]));
    }
}

/// Follow the parent slots back from `sink`.  Returns the slots of the path
/// from the source to `sink`, last slot first, or `None` when they run in a
/// cycle, which then has a negative cost.
fn trace_path(
    parent: &Vec<Option<(usize, usize)>>,
    source: usize,
    sink: usize,
    Ghost(res): Ghost<Seq<Seq<Slot>>>,
    Ghost(cg): Ghost<Seq<Seq<i64>>>,
    Ghost(dist): Ghost<Seq<Option<i128>>>,
    Ghost(t): Ghost<Seq<int>>,
) -> (out: (Option<Vec<(usize, usize)>>, Ghost<Seq<int>>))
    requires
        paths_ok(res, cg, dist, parent@, t, source as int),
        dists_are_walks(res, cg, dist, source as int),
        sink < res.len(),
        dist[sink as int] is Some,
    ensures
        match out.0 {
            Some(steps) => {
                &&& back_path(res, out.1@, steps@)
                &&& out.1@[0] == sink
                &&& out.1@.last() == source
                &&& forall|k: int| 0 <= k < steps@.len() ==> parent@[#[trigger] out.1@[k]] == Some(steps@[k])
            },
            None => reachable_negative_cycle(res, cg, source as int),
        },
{
    let n = parent.len();
    let ghost nn = n as int;
    let mut seen = all_false(n);
    seen.set(sink, true);
    let mut steps: Vec<(usize, usize)> = Vec::new();
    let mut v = sink;
    let ghost mut chain: Seq<int> = seq![sink as int];
    proof {
        lemma_count_false_mono(seen@, seen@, nn, 0);
        assert forall|x: int| 0 <= x < n && #[trigger] seen@[x] implies exists|k: int| 0 <= k < chain.len() && chain[k] == x by {
            assert(x == sink);
            assert(chain[0] == x);
        }
    }
    loop
        invariant
            paths_ok(res, cg, dist, parent@, t, source as int),
            dists_are_walks(res, cg, dist, source as int),
            n == res.len(),
            nn == n,
            sink < n,
            seen@.len() == n,
            back_path(res, chain, steps@),
            chain[0] == sink,
            chain.last() == v as int,
            (v as int) < n,
            dist[v as int] is Some,
            forall|k: int| 0 <= k < steps@.len() ==> parent@[#[trigger] chain[k]] == Some(steps@[k]),
            forall|k: int| 0 <= k < chain.len() ==> seen@[#[trigger] chain[k]],
            forall|x: int| 0 <= x < n && #[trigger] seen@[x] ==> exists|k: int| 0 <= k < chain.len() && chain[k] == x,
            0 <= count_false(seen@, nn),
        decreases count_false(seen@, nn),
    {
        match parent[v] {
            None => {
                assert(v == source);
                return (Some(steps), Ghost(chain));
            },
            Some((u, i)) => {
                assert(parent@[v as int] == Some((u, i)));
                assert(tree_slot_ok(res, cg, dist, t, u as int, i as int, v as int));
                if seen[u] {
                    proof {
                        let j = choose|k: int| 0 <= k < chain.len() && chain[k] == u as int;
                        let m = chain.len() as int;
                        let len = m - j;
                        let p = Seq::new((len + 1) as nat, |l: int| if l == 0 { u as int } else { chain[m - l] });
                        let q = Seq::new(len as nat, |l: int| if l == 0 { i as int } else { steps@[m - 1 - l].1 as int });
                        assert forall|l: int| 0 <= l < q.len() implies #[trigger] parent_step(res, parent@, p, q, l) by {
                            assert(p[l + 1] == chain[m - 1 - l]);
                            if l > 0 {
                                let k = m - 1 - l;
                                assert(parent@[chain[k]] == Some(steps@[k]));
                                assert(steps@[k].0 as int == chain[k + 1]);
                            }
                        }
                        assert(p[0] == p.last());
                        lemma_parent_cycle(res, cg, dist, parent@, t, source as int, p, q);
                        assert(walk_to(res, cg, source as int, u as int, dist[u as int]->0 as int));
                        let (p0, q0) = choose|p0: Seq<int>, q0: Seq<int>|
                            #[trigger] is_walk(res, p0, q0) && p0[0] == source as int && p0.last() == u as int && walk_cost(
                                cg,
                                p0,
                                q0,
                                q0.len() as int,
                            ) == dist[u as int]->0 as int;
                        assert(reachable(res, source as int, u as int));
                        assert(is_walk(res, p, q) && q.len() > 0 && p[0] == p.last() && walk_cost(cg, p, q, q.len() as int) < 0);
                        assert(reachable_negative_cycle(res, cg, source as int));
                    }
                    return (None, Ghost(chain));
                }
                let ghost seen0 = seen@;
                seen.set(u, true);
                steps.push((u, i));
                proof {
                    lemma_count_false_mono(seen0, seen@, nn, u as int);
                    let c0 = chain;
                    chain = chain.push(u as int);
                    assert forall|j: int, k: int| 0 <= j < k < chain.len() implies #[trigger] chain[j] != #[trigger] chain[k] by {
                        if k == chain.len() - 1 {
                            assert(seen0[c0[j]]);
                        }
                    }
                    assert forall|k: int| #![trigger steps@[k]] 0 <= k < steps@.len() implies {
                        &&& steps@[k].0 as int == chain[k + 1]
                        &&& (steps@[k].1 as int) < res[chain[k + 1]].len()
                        &&& res[chain[k + 1]][steps@[k].1 as int].0 as int == chain[k]
                        &&& res[chain[k + 1]][steps@[k].1 as int].1 > 0
                    } by {
                        if k < steps@.len() - 1 {
                            assert(chain[k + 1] == c0[k + 1]);
                            assert(chain[k] == c0[k]);
                        }
                    }
                    assert forall|x: int| 0 <= x < n && #[trigger] seen@[x] implies exists|k: int|
                        0 <= k < chain.len() && chain[k] == x by {
                        if x != u {
                            assert(seen0[x]);
                            let k = choose|k: int| 0 <= k < c0.len() && c0[k] == x;
                            assert(chain[k] == x);
                        } else {
                            assert(chain[chain.len() - 1] == x);
                        }
                    }
                    assert forall|k: int| 0 <= k < steps@.len() implies parent@[#[trigger] chain[k]] == Some(steps@[k]) by {
                        if k < steps@.len() - 1 {
                            assert(chain[k] == c0[k]);
                        }
                    }
                }
                v = u;
            },
        }
    }
}


/// Pushing `p` units through slot `(u, i)` raises the cost of the flow by
/// `p` times the slot's cost.
proof fn lemma_augment_cost(
    n: int,
    orig: Seq<Seq<Slot>>,
    res: Seq<Seq<Slot>>,
    es: Seq<EdgeRef>,
    ow: Seq<Seq<(int, bool)>>,
    cg: Seq<Seq<i64>>,
    u: int,
    i: int,
    p: u64,
)
    requires
        bounds_ok(n, orig),
        edges_ok(n, orig, es, ow),
        residual_ok(orig, res, es),
        costs_ok(orig, es, cg),
        0 <= u < n,
        0 <= i < res[u].len(),
        res[u][i].0 != u,
        p <= res[u][i].1,
    ensures
        flow_cost(flow_of(orig, augmented(res, u, i, p), es), edge_costs(es, cg), es.len() as int) == flow_cost(
            flow_of(orig, res, es),
            edge_costs(es, cg),
            es.len() as int,
        ) + p * cg[u][i],
{
    lemma_augment_slot(n, orig, res, es, ow, u, i, p);
    let (k, fwd) = ow[u][i];
    let f = flow_of(orig, res, es);
    let ec = edge_costs(es, cg);
    let d: int = if fwd { p as int } else { -(p as int) };
    lemma_flow_cost_update(f, ec, k, d, es.len() as int);
    assert(es[k] == es[k]);
    if fwd {
        assert(ec[k] == cg[u][i]);
    } else {
        assert(cg[u][i] == -cg[es[k].from][es[k].fi]);
        assert(ec[k] == cg[es[k].from][es[k].fi]);
        assert(d * ec[k] == p * cg[u][i]) by (nonlinear_arith)
            requires
                d == -(p as int),
                cg[u][i] == -ec[k],
        ;
    }
}

proof fn lemma_slot_count_shape(a: Seq<Seq<Slot>>, b: Seq<Seq<Slot>>, m: int)
    requires
        same_shape(a, b),
        m <= a.len(),
    ensures
        slot_count(a, m) == slot_count(b, m),
    decreases m,
{
    if m > 0 {
        lemma_slot_count_shape(a, b, m - 1);
        assert(a[m - 1].len() == b[m - 1].len());
    }
}

/// What successive shortest paths leave behind: a residual network `res`
/// carrying a conserved flow of value `flow` and cost `cost`, with `flow` at
/// most the target.  Either the target is met, or the flow is a maximum flow,
/// or `res` holds a cycle of negative cost, on which shortest paths are not
/// defined; the last never happens when the network itself holds no such
/// cycle, and the flow is then the cheapest of its value.  When the source is
/// the sink, nothing moves.
pub open spec fn min_cost_outcome(
    n: int,
    orig: Seq<Seq<Slot>>,
    es: Seq<EdgeRef>,
    cg: Seq<Seq<i64>>,
    s: int,
    t: int,
    target: int,
    res: Seq<Seq<Slot>>,
    flow: int,
    cost: int,
) -> bool {
    &&& residual_ok(orig, res, es)
    &&& forall|w: int|
        0 <= w < n && w != s && w != t ==> #[trigger] net(es, flow_of(orig, res, es), w) == 0
    &&& s != t ==> net(es, flow_of(orig, res, es), s) == flow
    &&& s == t ==> res == orig
    &&& cost == flow_cost(flow_of(orig, res, es), edge_costs(es, cg), es.len() as int)
    &&& 0 <= flow <= target
    &&& flow == target || (s != t && is_max_flow_value(n, es, caps_of(orig, es), s, t, flow) && is_min_cut_value(
        n,
        es,
        caps_of(orig, es),
        s,
        t,
        flow,
    )) || reachable_negative_cycle(res, cg, s)
    &&& !negative_cycle(orig, cg) ==> !negative_cycle(res, cg) && is_min_cost_flow(
        n,
        es,
        caps_of(orig, es),
        edge_costs(es, cg),
        flow_of(orig, res, es),
        s,
        t,
    )
}

/// The inputs on which `min_cost_flow` works: a network that `new` and
/// `add_edge` built, vertices in range, distances that fit in an `i128`
/// through all rounds of Bellman-Ford, and costs that fit in an `i128`.
pub open spec fn min_cost_input_ok(network: MinCostNetwork, source: usize, sink: usize) -> bool {
    let g = network.graph();
    &&& network.wf()
    &&& source < g.vertices()
    &&& sink < g.vertices()
    &&& g.vertices() * slot_count(g.slots(), g.vertices()) <= u64::MAX
    &&& cost_limit(g.capacities(), network.costs(), g.edge_refs().len() as int) <= i128::MAX
}

/// Compute min-cost max-flow using successive shortest paths with Bellman-Ford.
pub fn min_cost_flow(network: &MinCostNetwork, source: usize, sink: usize, max_flow_target: u64) -> (result:
    MinCostFlowResult)
    requires
        min_cost_input_ok(*network, source, sink),
    ensures
        exists|res: Seq<Seq<Slot>>|
            min_cost_outcome(
                network.graph().vertices(),
                network.graph().slots(),
                network.graph().edge_refs(),
                network.slot_costs(),
                source as int,
                sink as int,
                max_flow_target as int,
                res,
                result.total_flow as int,
                result.total_cost as int,
            ),
{
    let n = network.vertex_count();
    let ghost nn = n as int;
    let ghost orig = network.net.slots();
    let ghost es = network.net.edge_refs();
    let ghost ow = network.net.owners();
    let ghost cg = network.slot_costs();
    let ghost ec = network.costs();
    let ghost m = es.len() as int;
    let oadj = network.net.adjacency();
    let mut adj = copy_slots(oadj);
    let costs = &network.costs;
    proof {
        lemma_zero_flow(nn, orig, es, ow);
        lemma_flow_cost_zero(flow_of(orig, orig, es), ec, m);
    }
    let mut total_flow: u64 = 0;
    let mut total_cost: i128 = 0;
    let mut done = false;
    let ghost mut cut: Seq<bool> = Seq::empty();
    let ghost mut cycle = false;
    let ghost mut pot: Seq<int> = choose|pi: Seq<int>| potential_ok(orig, cg, pi);
    while total_flow < max_flow_target && !done
        invariant
            network_ok(nn, orig, es, ow),
            orig.len() == nn,
            nn == n,
            m == es.len(),
            source < n,
            sink < n,
            costs_ok(orig, es, cg),
            cg == deep_costs(costs@),
            ec == edge_costs(es, cg),
            nn * slot_count(orig, nn) <= u64::MAX,
            cost_limit(caps_of(orig, es), ec, m) <= i128::MAX,
            residual_ok(orig, deep(adj@), es),
            forall|w: int|
                0 <= w < nn && w != source && w != sink ==> #[trigger] net(es, flow_of(orig, deep(adj@), es), w)
                    == 0,
            source != sink ==> net(es, flow_of(orig, deep(adj@), es), source as int) == total_flow,
            source == sink ==> deep(adj@) == orig,
            total_cost == flow_cost(flow_of(orig, deep(adj@), es), ec, m),
            total_flow <= max_flow_target,
            done ==> (!cycle && is_cut(nn, cut, source as int, sink as int) && closed(deep(adj@), cut)) || (cycle
                && reachable_negative_cycle(deep(adj@), cg, source as int)),
            has_potential(orig, cg) ==> potential_ok(deep(adj@), cg, pot),
        decreases max_flow_target - total_flow, (if done { 0int } else { 1 }),
    {
        let ghost res0 = deep(adj@);
        proof {
            lemma_shape_bounds(nn, orig, res0);
            lemma_slot_count_shape(orig, res0, nn);
            assert(cost_shape(res0, cg)) by {
                assert forall|u: int| #![trigger cg[u]] 0 <= u < res0.len() implies cg[u].len() == res0[u].len() by {
                    assert(orig[u].len() == res0[u].len());
                }
            }
        }
        proof {
            if has_potential(orig, cg) {
                assert(has_potential(res0, cg));
            }
        }
        let (dist, parent, Ghost(t)) = bellman_ford(&adj, costs, source, Ghost(nn));
        if dist[sink].is_none() {
            done = true;
            proof {
                cut = finite(dist@);
                cycle = false;
            }
        } else {
            let (path, Ghost(chain)) = trace_path(&parent, source, sink, Ghost(res0), Ghost(cg), Ghost(dist@), Ghost(t));
            match path {
                None => {
                    done = true;
                    proof {
                        cycle = true;
                    }
                },
                Some(steps) => {
                    let ghost pi2 = next_potential(res0, cg, dist@, pot);
                    proof {
                        if has_potential(orig, cg) {
                            lemma_next_potential(res0, cg, dist@, pot);
                            assert forall|j: int| 0 <= j < steps@.len() implies #[trigger] cg[chain[j + 1]][steps@[j].1 as int]
                                + pi2[chain[j + 1]] - pi2[chain[j]] == 0 by {
                                assert(parent@[chain[j]] == Some(steps@[j]));
                                assert(steps@[j].0 as int == chain[j + 1]);
                                assert(tree_slot_ok(res0, cg, dist@, t, chain[j + 1], steps@[j].1 as int, chain[j]));
                                assert(res0[chain[j + 1]][steps@[j].1 as int].1 > 0);
                            }
                        }
                    }
                    // Find the bottleneck along the path.
                    let mut bottleneck: u64 = max_flow_target - total_flow;
                    let mut k: usize = 0;
                    while k < steps.len()
                        invariant
                            back_path(res0, chain, steps@),
                            res0 == deep(adj@),
                            k <= steps@.len(),
                            0 < bottleneck <= max_flow_target - total_flow,
                            forall|j: int|
                                0 <= j < k ==> bottleneck <= #[trigger] res0[chain[j + 1]][steps@[j].1 as int].1,
                        decreases steps@.len() - k,
                    {
                        let (u, i) = steps[k];
                        assert(steps@[k as int] == (u, i));
                        let c = adj[u][i].1;
                        if c < bottleneck {
                            bottleneck = c;
                        }
                        k = k + 1;
                    }
                    // Push it along the path, adding up its cost.
                    let b = bottleneck;
                    let mut k: usize = 0;
                    while k < steps.len()
                        invariant
                            network_ok(nn, orig, es, ow),
                            orig.len() == nn,
                            nn == n,
                            m == es.len(),
                            costs_ok(orig, es, cg),
                            cg == deep_costs(costs@),
                            ec == edge_costs(es, cg),
                            cost_limit(caps_of(orig, es), ec, m) <= i128::MAX,
                            residual_ok(orig, deep(adj@), es),
                            residual_ok(orig, res0, es),
                            back_path(res0, chain, steps@),
                            chain[0] == sink,
                            chain.last() == source,
                            k <= steps@.len(),
                            0 < b,
                            forall|j: int| 0 <= j < steps@.len() ==> b <= #[trigger] res0[chain[j + 1]][steps@[j].1 as int].1,
                            forall|j: int| k < j < chain.len() ==> deep(adj@)[#[trigger] chain[j]] == res0[chain[j]],
                            forall|w: int|
                                #![trigger net(es, flow_of(orig, deep(adj@), es), w)]
                                net(es, flow_of(orig, deep(adj@), es), w) == net(es, flow_of(orig, res0, es), w) + (
                                if w == chain[k as int] {
                                    b as int
                                } else {
                                    0
                                }) - (if w == sink { b as int } else { 0 }),
                            total_cost == flow_cost(flow_of(orig, deep(adj@), es), ec, m),
                            k == 0 ==> deep(adj@) == res0,
                            has_potential(orig, cg) ==> potential_ok(deep(adj@), cg, pi2),
                            has_potential(orig, cg) ==> forall|j: int|
                                0 <= j < steps@.len() ==> #[trigger] cg[chain[j + 1]][steps@[j].1 as int] + pi2[chain[j + 1]]
                                    - pi2[chain[j]] == 0,
                        decreases steps@.len() - k,
                    {
                        let (u, i) = steps[k];
                        let ghost cur = deep(adj@);
                        proof {
                            assert(steps@[k as int] == (u, i));
                            assert(cur[u as int] == res0[u as int]);
                            assert(chain[k as int] != chain[k + 1]);
                            assert(cg[u as int] == costs@[u as int]@);
                            assert(cg[u as int].len() == orig[u as int].len());
                            lemma_augment_slot(nn, orig, cur, es, ow, u as int, i as int, b);
                            lemma_augment_cost(nn, orig, cur, es, ow, cg, u as int, i as int, b);
                            if has_potential(orig, cg) {
                                assert(cg[chain[k + 1]][steps@[k as int].1 as int] + pi2[chain[k + 1]] - pi2[chain[k as int]] == 0);
                                lemma_augment_potential(nn, orig, cur, es, ow, cg, pi2, u as int, i as int, b);
                            }
                            lemma_flow_of_bounds(orig, augmented(cur, u as int, i as int, b), es);
                            lemma_flow_cost_bound(
                                flow_of(orig, augmented(cur, u as int, i as int, b), es),
                                caps_of(orig, es),
                                ec,
                                m,
                            );
                        }
                        let v = adj[u][i].0;
                        let rev = adj[u][i].2;
                        let c = costs[u][i];
                        assert(c == cg[u as int][i as int]);
                        adj[u][i].1 = adj[u][i].1 - b;
                        adj[v][rev].1 = adj[v][rev].1 + b;
                        assert((b as int) * (c as int) <= 0xffff_ffff_ffff_ffff * 0x7fff_ffff_ffff_ffff) by (nonlinear_arith)
                            requires
                                b <= u64::MAX,
                                -0x8000_0000_0000_0000 <= c <= 0x7fff_ffff_ffff_ffff,
                        ;
                        assert(-0x8000_0000_0000_0000 * 0xffff_ffff_ffff_ffff <= (b as int) * (c as int)) by (nonlinear_arith)
                            requires
                                b <= u64::MAX,
                                -0x8000_0000_0000_0000 <= c <= 0x7fff_ffff_ffff_ffff,
                        ;
                        total_cost = total_cost + (b as i128) * (c as i128);
                        proof {
                            let aug = augmented(cur, u as int, i as int, b);
                            assert(deep(adj@) =~= aug) by {
                                assert forall|w: int| 0 <= w < nn implies #[trigger] deep(adj@)[w] =~= aug[w] by {}
                            }
                            assert forall|j: int| k + 1 < j < chain.len() implies deep(adj@)[#[trigger] chain[j]]
                                == res0[chain[j]] by {
                                assert(chain[j] != chain[k as int]);
                                assert(chain[j] != chain[k + 1]);
                                assert(cur[chain[j]] == res0[chain[j]]);
                            }
                        }
                        k = k + 1;
                    }
                    proof {
                        let res1 = deep(adj@);
                        if source == sink {
                            assert(chain.len() == 1) by {
                                if chain.len() > 1 {
                                    assert(chain[0] != chain[chain.len() - 1]);
                                }
                            }
                            assert(res1 == res0);
                        }
                        assert forall|w: int| 0 <= w < nn && w != source && w != sink implies #[trigger] net(
                            es,
                            flow_of(orig, res1, es),
                            w,
                        ) == 0 by {
                            assert(net(es, flow_of(orig, res0, es), w) == 0);
                        }
                    }
                    total_flow = total_flow + b;
                    proof {
                        pot = pi2;
                    }
                }
            }
        }
    }
    let result = MinCostFlowResult { total_flow, total_cost };
    proof {
        let res = deep(adj@);
        if done && !cycle {
            law_closed_cut_certifies_max_flow(nn, orig, res, es, ow, cut, source as int, sink as int);
        }
        law_potential_iff_no_negative_cycle(orig, cg);
        if has_potential(orig, cg) {
            lemma_potential_no_negative_cycle(res, cg, pot);
            law_potential_certifies_min_cost(nn, orig, res, es, ow, cg, pot, source as int, sink as int);
        }
        assert(min_cost_outcome(
            network.graph().vertices(),
            network.graph().slots(),
            network.graph().edge_refs(),
            network.slot_costs(),
            source as int,
            sink as int,
            max_flow_target as int,
            res,
            result.total_flow as int,
            result.total_cost as int,
        ));
    }
    result
}

/// A network whose costs are all nonnegative has a potential, the zero one,
/// and so no cycle of negative cost.  Successive shortest paths then never
/// meet a negative cycle, and their flow is the cheapest of its value.
pub proof fn lemma_nonnegative_costs_no_negative_cycle(network: MinCostNetwork)
    requires
        network.wf(),
        forall|k: int| 0 <= k < network.costs().len() ==> #[trigger] network.costs()[k] >= 0,
    ensures
        has_potential(network.graph().slots(), network.slot_costs()),
        !negative_cycle(network.graph().slots(), network.slot_costs()),
{
    let g = network.graph();
    let a = g.slots();
    let es = g.edge_refs();
    let ow = g.owners();
    let cg = network.slot_costs();
    let n = g.vertices();
    let pi = Seq::new(a.len(), |w: int| 0int);
    assert(network_ok(n, a, es, ow));
    assert forall|u: int, i: int|
        #![trigger a[u][i]]
        0 <= u < a.len() && 0 <= i < a[u].len() && a[u][i].1 > 0 implies cg[u][i] + pi[u] - pi[a[u][i].0 as int] >= 0 by {
        let (k, fwd) = ow[u][i];
        assert(es[k] == es[k]);
        assert(0 <= a[u][i].0 < a.len());
        if fwd {
            assert(network.costs()[k] == cg[es[k].from][es[k].fi]);
            assert(network.costs()[k] >= 0);
        } else {
            assert(a[es[k].to][es[k].ti].1 == 0);
        }
    }
    assert(potential_ok(a, cg, pi));
    lemma_potential_no_negative_cycle(a, cg, pi);
}

/// Compute the flow and cost of a min-cost maximum flow: the flow is not
/// capped.
pub fn compute_flow_cost(network: &MinCostNetwork, source: usize, sink: usize) -> (out: (u64, i128))
    requires
        min_cost_input_ok(*network, source, sink),
    ensures
        exists|res: Seq<Seq<Slot>>|
            min_cost_outcome(
                network.graph().vertices(),
                network.graph().slots(),
                network.graph().edge_refs(),
                network.slot_costs(),
                source as int,
                sink as int,
                u64::MAX as int,
                res,
                out.0 as int,
                out.1 as int,
            ),
{
    let result = min_cost_flow(network, source, sink, u64::MAX);
    let out = (result.total_flow, result.total_cost);
    proof {
        let res = choose|res: Seq<Seq<Slot>>|
            min_cost_outcome(
                network.graph().vertices(),
                network.graph().slots(),
                network.graph().edge_refs(),
                network.slot_costs(),
                source as int,
                sink as int,
                u64::MAX as int,
                res,
                result.total_flow as int,
                result.total_cost as int,
            );
        assert(min_cost_outcome(
            network.graph().vertices(),
            network.graph().slots(),
            network.graph().edge_refs(),
            network.slot_costs(),
            source as int,
            sink as int,
            u64::MAX as int,
            res,
            out.0 as int,
            out.1 as int,
        ));
    }
    out
}

} // verus!
