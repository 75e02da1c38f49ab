//! The mathematical model of costs: what a flow costs, what a walk through
//! the residual network costs, and potentials, whose existence certifies
//! that a flow is the cheapest of its value.
use vstd::prelude::*;

use crate::flow_spec::{
    caps_of, edge_share, edge_slots_ok, edges_ok, endpoints_ok, flow_of, is_flow, is_walk, lemma_endpoints,
    lemma_flow_of_bounds, net, net_upto, reachable, residual_ok, walk_step, bounds_ok, augmented, lemma_augment_slot, EdgeRef,
    Slot,
};
use vstd::set_lib::{lemma_int_range, lemma_len_subset, set_int_range};

verus! {

/// A cost per slot: one entry per slot of `a`, and on every edge the reverse
/// slot costing the opposite of the forward slot.
pub open spec fn costs_ok(a: Seq<Seq<Slot>>, es: Seq<EdgeRef>, c: Seq<Seq<i64>>) -> bool {
    &&& c.len() == a.len()
    &&& forall|u: int| #![trigger c[u]] 0 <= u < a.len() ==> c[u].len() == a[u].len()
    &&& forall|k: int| #![trigger es[k]] 0 <= k < es.len() ==> c[es[k].to][es[k].ti] == -c[es[k].from][es[k].fi]
}

/// The cost per unit of every edge, in the order the edges were added.
pub open spec fn edge_costs(es: Seq<EdgeRef>, c: Seq<Seq<i64>>) -> Seq<int> {
    Seq::new(es.len(), |k: int| c[es[k].from][es[k].fi] as int)
}

/// Total cost of the first `m` steps of the walk `p` through the slots `q`.
pub open spec fn walk_cost(cg: Seq<Seq<i64>>, p: Seq<int>, q: Seq<int>, m: int) -> int
    decreases m,
{
    if m <= 0 {
        0
    } else {
        walk_cost(cg, p, q, m - 1) + cg[p[m - 1]][q[m - 1]]
    }
}

/// `res` holds a cycle of slots with capacity left whose total cost is negative.
pub open spec fn negative_cycle(res: Seq<Seq<Slot>>, cg: Seq<Seq<i64>>) -> bool {
    exists|p: Seq<int>, q: Seq<int>|
        #[trigger] is_walk(res, p, q) && q.len() > 0 && p[0] == p.last() && walk_cost(cg, p, q, q.len() as int) < 0
}

/// `res` holds a cycle of negative cost through a vertex that `s` reaches.
pub open spec fn reachable_negative_cycle(res: Seq<Seq<Slot>>, cg: Seq<Seq<i64>>, s: int) -> bool {
    exists|p: Seq<int>, q: Seq<int>|
        #[trigger] is_walk(res, p, q) && q.len() > 0 && p[0] == p.last() && walk_cost(cg, p, q, q.len() as int) < 0
            && reachable(res, s, p[0])
}

/// A negative cycle that the source reaches is a negative cycle.
pub proof fn lemma_reachable_negative_cycle(res: Seq<Seq<Slot>>, cg: Seq<Seq<i64>>, s: int)
    requires
        reachable_negative_cycle(res, cg, s),
    ensures
        negative_cycle(res, cg),
{
    let (p, q) = choose|p: Seq<int>, q: Seq<int>|
        #[trigger] is_walk(res, p, q) && q.len() > 0 && p[0] == p.last() && walk_cost(cg, p, q, q.len() as int) < 0
            && reachable(res, s, p[0]);
    assert(is_walk(res, p, q));
}

/// Cost of the flow `f` over the first `m` edges, at `c` per unit.
pub open spec fn flow_cost(f: Seq<int>, c: Seq<int>, m: int) -> int
    decreases m,
{
    if m <= 0 {
        0
    } else {
        flow_cost(f, c, m - 1) + f[m - 1] * c[m - 1]
    }
}

/// The largest cost, in absolute value, that a flow within the capacities
/// `caps` can have over the first `m` edges.
pub open spec fn cost_limit(caps: Seq<int>, c: Seq<int>, m: int) -> int
    decreases m,
{
    if m <= 0 {
        0
    } else {
        cost_limit(caps, c, m - 1) + caps[m - 1] * (if c[m - 1] < 0 { -c[m - 1] } else { c[m - 1] })
    }
}

pub proof fn lemma_flow_cost_update(f: Seq<int>, c: Seq<int>, k: int, d: int, m: int)
    requires
        0 <= k < f.len(),
        m <= f.len(),
    ensures
        flow_cost(f.update(k, f[k] + d), c, m) == flow_cost(f, c, m) + (if k < m { d * c[k] } else { 0 }),
    decreases m,
{
    if m > 0 {
        lemma_flow_cost_update(f, c, k, d, m - 1);
        if k == m - 1 {
            assert((f[k] + d) * c[k] == f[k] * c[k] + d * c[k]) by (nonlinear_arith);
        }
    }
}

pub proof fn lemma_flow_cost_bound(f: Seq<int>, caps: Seq<int>, c: Seq<int>, m: int)
    requires
        m <= f.len(),
        forall|k: int| 0 <= k < m ==> 0 <= #[trigger] f[k] <= caps[k],
    ensures
        -cost_limit(caps, c, m) <= flow_cost(f, c, m) <= cost_limit(caps, c, m),
    decreases m,
{
    if m > 0 {
        lemma_flow_cost_bound(f, caps, c, m - 1);
        let k = m - 1;
        let a = if c[k] < 0 { -c[k] } else { c[k] };
        assert(0 <= f[k] <= caps[k]);
        assert(-(caps[k] * a) <= f[k] * c[k] <= caps[k] * a) by (nonlinear_arith)
            requires
                0 <= f[k] <= caps[k],
                a == (if c[k] < 0 { -c[k] } else { c[k] }),
        ;
    }
}

pub proof fn lemma_flow_cost_zero(f: Seq<int>, c: Seq<int>, m: int)
    requires
        m <= f.len(),
        forall|k: int| 0 <= k < m ==> #[trigger] f[k] == 0,
    ensures
        flow_cost(f, c, m) == 0,
    decreases m,
{
    if m > 0 {
        lemma_flow_cost_zero(f, c, m - 1);
        assert(f[m - 1] == 0);
    }
}

/// `pi` is a potential for `res` under the slot costs `cg`: every slot with
/// capacity left costs at least the rise of the potential along it.
pub open spec fn potential_ok(res: Seq<Seq<Slot>>, cg: Seq<Seq<i64>>, pi: Seq<int>) -> bool {
    &&& pi.len() == res.len()
    &&& forall|u: int, i: int|
        #![trigger res[u][i]]
        0 <= u < res.len() && 0 <= i < res[u].len() && res[u][i].1 > 0 ==> cg[u][i] + pi[u] - pi[res[u][i].0 as int]
            >= 0
}

/// Some potential exists for `res`.
pub open spec fn has_potential(res: Seq<Seq<Slot>>, cg: Seq<Seq<i64>>) -> bool {
    exists|pi: Seq<int>| potential_ok(res, cg, pi)
}

/// `f` is an `s`-`t` flow, and no `s`-`t` flow of the same value costs less.
pub open spec fn is_min_cost_flow(
    n: int,
    es: Seq<EdgeRef>,
    caps: Seq<int>,
    costs: Seq<int>,
    f: Seq<int>,
    s: int,
    t: int,
) -> bool {
    &&& is_flow(n, es, caps, f, s, t)
    &&& forall|g: Seq<int>|
        is_flow(n, es, caps, g, s, t) && net(es, g, s) == net(es, f, s) ==> flow_cost(f, costs, es.len() as int)
            <= #[trigger] flow_cost(g, costs, es.len() as int)
}

/// The rise of the potential along every edge.
pub open spec fn rises(es: Seq<EdgeRef>, pi: Seq<int>) -> Seq<int> {
    Seq::new(es.len(), |k: int| pi[es[k].from] - pi[es[k].to])
}

/// The sum, over the first `nv` vertices, of the potential times the net
/// outflow over the first `m` edges.
pub open spec fn pot_sum(es: Seq<EdgeRef>, x: Seq<int>, pi: Seq<int>, nv: int, m: int) -> int
    decreases nv,
{
    if nv <= 0 {
        0
    } else {
        pot_sum(es, x, pi, nv - 1, m) + pi[nv - 1] * net_upto(es, x, nv - 1, m)
    }
}

proof fn lemma_pot_sum_step(es: Seq<EdgeRef>, x: Seq<int>, pi: Seq<int>, nv: int, m: int)
    requires
        0 <= m < es.len(),
        0 <= nv,
    ensures
        pot_sum(es, x, pi, nv, m + 1) == pot_sum(es, x, pi, nv, m) + (if 0 <= es[m].from < nv {
            pi[es[m].from] * x[m]
        } else {
            0
        }) - (if 0 <= es[m].to < nv { pi[es[m].to] * x[m] } else { 0 }),
    decreases nv,
{
    if nv > 0 {
        lemma_pot_sum_step(es, x, pi, nv - 1, m);
        let w = nv - 1;
        let a = net_upto(es, x, w, m);
        let sh = edge_share(es[m], x[m], w);
        assert(net_upto(es, x, w, m + 1) == a + sh);
        assert(pi[w] * (a + sh) == pi[w] * a + pi[w] * sh) by (nonlinear_arith);
        if es[m].from == w && es[m].to == w {
            assert(sh == 0);
        } else if es[m].from == w {
            assert(sh == x[m]);
        } else if es[m].to == w {
            assert(sh == -x[m]);
            assert(pi[w] * (-x[m]) == -(pi[w] * x[m])) by (nonlinear_arith);
        } else {
            assert(sh == 0);
        }
    }
}

proof fn lemma_pot_sum_zero_edges(es: Seq<EdgeRef>, x: Seq<int>, pi: Seq<int>, nv: int)
    ensures
        pot_sum(es, x, pi, nv, 0) == 0,
    decreases nv,
{
    if nv > 0 {
        lemma_pot_sum_zero_edges(es, x, pi, nv - 1);
    }
}

/// Summed over the edges, the rise of the potential times the flow equals,
/// summed over the vertices, the potential times the net outflow.
pub proof fn lemma_rises_are_pot_sum(n: int, es: Seq<EdgeRef>, x: Seq<int>, pi: Seq<int>, m: int)
    requires
        0 <= m <= es.len(),
        endpoints_ok(n, es),
    ensures
        flow_cost(x, rises(es, pi), m) == pot_sum(es, x, pi, n, m),
    decreases m,
{
    if m == 0 {
        lemma_pot_sum_zero_edges(es, x, pi, n);
    } else {
        lemma_rises_are_pot_sum(n, es, x, pi, m - 1);
        let k = m - 1;
        assert(0 <= es[k].from < n && 0 <= es[k].to < n);
        lemma_pot_sum_step(es, x, pi, n, k);
        assert(rises(es, pi)[k] == pi[es[k].from] - pi[es[k].to]);
        assert(x[k] * (pi[es[k].from] - pi[es[k].to]) == pi[es[k].from] * x[k] - pi[es[k].to] * x[k]) by (nonlinear_arith);
    }
}

proof fn lemma_pot_sum_zero(es: Seq<EdgeRef>, x: Seq<int>, pi: Seq<int>, nv: int, m: int)
    requires
        forall|w: int| 0 <= w < nv ==> #[trigger] net_upto(es, x, w, m) == 0,
    ensures
        pot_sum(es, x, pi, nv, m) == 0,
    decreases nv,
{
    if nv > 0 {
        lemma_pot_sum_zero(es, x, pi, nv - 1, m);
        assert(net_upto(es, x, nv - 1, m) == 0);
        assert(pi[nv - 1] * 0 == 0) by (nonlinear_arith);
    }
}

proof fn lemma_pot_sum_one(es: Seq<EdgeRef>, x: Seq<int>, pi: Seq<int>, nv: int, m: int, t: int)
    requires
        forall|w: int| 0 <= w < nv && w != t ==> #[trigger] net_upto(es, x, w, m) == 0,
        forall|w: int| 0 <= w < pi.len() ==> #[trigger] pi[w] == 1,
        nv <= pi.len(),
    ensures
        pot_sum(es, x, pi, nv, m) == (if 0 <= t < nv { net_upto(es, x, t, m) } else { 0 }),
    decreases nv,
{
    if nv > 0 {
        lemma_pot_sum_one(es, x, pi, nv - 1, m, t);
        assert(pi[nv - 1] == 1);
        if nv - 1 != t {
            assert(net_upto(es, x, nv - 1, m) == 0);
        }
    }
}

proof fn lemma_net_diff(es: Seq<EdgeRef>, g: Seq<int>, f: Seq<int>, d: Seq<int>, w: int, m: int)
    requires
        0 <= m <= d.len(),
        m <= g.len(),
        m <= f.len(),
        forall|k: int| 0 <= k < m ==> #[trigger] d[k] == g[k] - f[k],
    ensures
        net_upto(es, d, w, m) == net_upto(es, g, w, m) - net_upto(es, f, w, m),
    decreases m,
{
    if m > 0 {
        lemma_net_diff(es, g, f, d, w, m - 1);
        assert(d[m - 1] == g[m - 1] - f[m - 1]);
    }
}

proof fn lemma_cost_diff(g: Seq<int>, f: Seq<int>, d: Seq<int>, c: Seq<int>, m: int)
    requires
        0 <= m <= d.len(),
        forall|k: int| 0 <= k < m ==> #[trigger] d[k] == g[k] - f[k],
    ensures
        flow_cost(d, c, m) == flow_cost(g, c, m) - flow_cost(f, c, m),
    decreases m,
{
    if m > 0 {
        lemma_cost_diff(g, f, d, c, m - 1);
        let k = m - 1;
        assert(d[k] == g[k] - f[k]);
        assert((g[k] - f[k]) * c[k] == g[k] * c[k] - f[k] * c[k]) by (nonlinear_arith);
    }
}

proof fn lemma_cost_split(d: Seq<int>, r: Seq<int>, a: Seq<int>, b: Seq<int>, m: int)
    requires
        forall|k: int| 0 <= k < m ==> #[trigger] r[k] == a[k] + b[k],
    ensures
        flow_cost(d, r, m) == flow_cost(d, a, m) + flow_cost(d, b, m),
    decreases m,
{
    if m > 0 {
        lemma_cost_split(d, r, a, b, m - 1);
        let k = m - 1;
        assert(r[k] == a[k] + b[k]);
        assert(d[k] * (a[k] + b[k]) == d[k] * a[k] + d[k] * b[k]) by (nonlinear_arith);
    }
}

proof fn lemma_cost_nonneg(d: Seq<int>, r: Seq<int>, m: int)
    requires
        forall|k: int| 0 <= k < m ==> #[trigger] (d[k] * r[k]) >= 0,
    ensures
        flow_cost(d, r, m) >= 0,
    decreases m,
{
    if m > 0 {
        lemma_cost_nonneg(d, r, m - 1);
        assert(d[m - 1] * r[m - 1] >= 0);
    }
}

/// Optimality certificate: a flow carried by a residual network that has a
/// potential costs no more than any other flow of the same value.
pub proof fn law_potential_certifies_min_cost(
    n: int,
    orig: Seq<Seq<Slot>>,
    res: Seq<Seq<Slot>>,
    es: Seq<EdgeRef>,
    ow: Seq<Seq<(int, bool)>>,
    cg: Seq<Seq<i64>>,
    pi: Seq<int>,
    s: int,
    t: int,
)
    requires
        edges_ok(n, orig, es, ow),
        orig.len() == n,
        residual_ok(orig, res, es),
        costs_ok(orig, es, cg),
        0 <= s < n,
        0 <= t < n,
        forall|w: int|
            0 <= w < n && w != s && w != t ==> #[trigger] net(es, flow_of(orig, res, es), w) == 0,
        potential_ok(res, cg, pi),
    ensures
        is_min_cost_flow(n, es, caps_of(orig, es), edge_costs(es, cg), flow_of(orig, res, es), s, t),
{
    let f = flow_of(orig, res, es);
    let caps = caps_of(orig, es);
    let c = edge_costs(es, cg);
    let m = es.len() as int;
    lemma_endpoints(n, orig, es, ow);
    lemma_flow_of_bounds(orig, res, es);
    assert(is_flow(n, es, caps, f, s, t));
    assert forall|g: Seq<int>| is_flow(n, es, caps, g, s, t) && net(es, g, s) == net(es, f, s) implies flow_cost(
        f,
        c,
        m,
    ) <= #[trigger] flow_cost(g, c, m) by {
        let d = Seq::new(es.len(), |k: int| g[k] - f[k]);
        // Every vertex keeps its net outflow.
        assert forall|w: int| 0 <= w < n implies #[trigger] net_upto(es, d, w, m) == 0 by {
            lemma_net_diff(es, g, f, d, w, m);
            if w != s && w != t {
                assert(net(es, g, w) == 0);
                assert(net(es, f, w) == 0);
            }
            if w == t && t != s {
                let ones = Seq::new(n as nat, |v: int| 1int);
                assert forall|v: int| 0 <= v < n && v != t implies #[trigger] net_upto(es, d, v, m) == 0 by {
                    lemma_net_diff(es, g, f, d, v, m);
                    if v != s {
                        assert(net(es, g, v) == 0);
                        assert(net(es, f, v) == 0);
                    }
                }
                lemma_pot_sum_one(es, d, ones, n, m, t);
                lemma_rises_are_pot_sum(n, es, d, ones, m);
                assert forall|k: int| 0 <= k < m implies #[trigger] rises(es, ones)[k] == 0 by {
                    assert(0 <= es[k].from < n && 0 <= es[k].to < n);
                }
                lemma_cost_zero_weights(d, rises(es, ones), m);
            }
        }
        // The rises of the potential add up to nothing.
        lemma_rises_are_pot_sum(n, es, d, pi, m);
        lemma_pot_sum_zero(es, d, pi, n, m);
        // Reduced costs times the change are never negative.
        let r = Seq::new(es.len(), |k: int| c[k] + rises(es, pi)[k]);
        assert forall|k: int| 0 <= k < m implies #[trigger] (d[k] * r[k]) >= 0 by {
            let e = es[k];
            assert(edge_slots_ok(n, orig, e));
            assert(res[e.from][e.fi].1 + res[e.to][e.ti].1 == orig[e.from][e.fi].1);
            assert(res[e.from][e.fi].0 == orig[e.from][e.fi].0);
            assert(res[e.to][e.ti].0 == orig[e.to][e.ti].0);
            assert(res[e.from].len() == orig[e.from].len());
            assert(res[e.to].len() == orig[e.to].len());
            assert(0 <= g[k] <= caps[k]);
            assert(0 <= f[k] <= caps[k] && f[k] == res[e.to][e.ti].1);
            assert(r[k] == cg[e.from][e.fi] + pi[e.from] - pi[e.to]);
            if d[k] > 0 {
                assert(res[e.from][e.fi].1 > 0);
                assert(r[k] >= 0);
                assert(d[k] * r[k] >= 0) by (nonlinear_arith)
                    requires
                        d[k] > 0,
                        r[k] >= 0,
                ;
            } else if d[k] < 0 {
                assert(res[e.to][e.ti].1 > 0);
                assert(cg[e.to][e.ti] == -cg[e.from][e.fi]);
                assert(r[k] <= 0);
                assert(d[k] * r[k] >= 0) by (nonlinear_arith)
                    requires
                        d[k] < 0,
                        r[k] <= 0,
                ;
            } else {
                assert(d[k] * r[k] == 0) by (nonlinear_arith)
                    requires
                        d[k] == 0,
                ;
            }
        }
        lemma_cost_nonneg(d, r, m);
        lemma_cost_split(d, r, c, rises(es, pi), m);
        lemma_cost_diff(g, f, d, c, m);
    }
}

pub proof fn lemma_cost_zero_weights(d: Seq<int>, r: Seq<int>, m: int)
    requires
        forall|k: int| 0 <= k < m ==> #[trigger] r[k] == 0,
    ensures
        flow_cost(d, r, m) == 0,
    decreases m,
{
    if m > 0 {
        lemma_cost_zero_weights(d, r, m - 1);
        assert(r[m - 1] == 0);
        assert(d[m - 1] * 0 == 0) by (nonlinear_arith);
    }
}

/// Walk costs depend on the first `m` steps only.
pub proof fn lemma_walk_cost_ext(cg: Seq<Seq<i64>>, p: Seq<int>, q: Seq<int>, p2: Seq<int>, q2: Seq<int>, m: int)
    requires
        forall|k: int| 0 <= k < m ==> #[trigger] p[k] == p2[k] && q[k] == q2[k],
    ensures
        walk_cost(cg, p, q, m) == walk_cost(cg, p2, q2, m),
    decreases m,
{
    if m > 0 {
        lemma_walk_cost_ext(cg, p, q, p2, q2, m - 1);
        assert(p[m - 1] == p2[m - 1]);
    }
}

/// A walk without its last step is a walk, costing that step less.
pub proof fn lemma_walk_prefix(res: Seq<Seq<Slot>>, cg: Seq<Seq<i64>>, p: Seq<int>, q: Seq<int>)
    requires
        is_walk(res, p, q),
        q.len() >= 1,
    ensures
        is_walk(res, p.drop_last(), q.drop_last()),
        p.drop_last()[0] == p[0],
        p.drop_last().last() == p[q.len() - 1],
        walk_cost(cg, p, q, q.len() as int) == walk_cost(cg, p.drop_last(), q.drop_last(), q.len() - 1) + cg[p[q.len()
            - 1]][q[q.len() - 1]],
{
    let p1 = p.drop_last();
    let q1 = q.drop_last();
    assert forall|k: int| 0 <= k < q1.len() implies #[trigger] walk_step(res, p1, q1, k) by {
        assert(walk_step(res, p, q, k));
    }
    lemma_walk_cost_ext(cg, p, q, p1, q1, q.len() - 1);
}

/// A walk followed by one more slot with capacity left.
pub proof fn lemma_walk_push(res: Seq<Seq<Slot>>, cg: Seq<Seq<i64>>, p: Seq<int>, q: Seq<int>, i: int)
    requires
        is_walk(res, p, q),
        0 <= p.last() < res.len(),
        0 <= i < res[p.last()].len(),
        res[p.last()][i].1 > 0,
    ensures
        is_walk(res, p.push(res[p.last()][i].0 as int), q.push(i)),
        p.push(res[p.last()][i].0 as int)[0] == p[0],
        walk_cost(cg, p.push(res[p.last()][i].0 as int), q.push(i), q.len() + 1int) == walk_cost(cg, p, q, q.len() as int)
            + cg[p.last()][i],
{
    let p2 = p.push(res[p.last()][i].0 as int);
    let q2 = q.push(i);
    assert forall|k: int| 0 <= k < q2.len() implies #[trigger] walk_step(res, p2, q2, k) by {
        if k < q.len() {
            assert(walk_step(res, p, q, k));
        }
    }
    lemma_walk_cost_ext(cg, p, q, p2, q2, q.len() as int);
}

/// Along a walk, the cost of the steps from `i` to `j` is at least the rise
/// of a potential from `p[i]` to `p[j]`.
pub proof fn lemma_walk_rise(res: Seq<Seq<Slot>>, cg: Seq<Seq<i64>>, pi: Seq<int>, p: Seq<int>, q: Seq<int>, i: int, j: int)
    requires
        potential_ok(res, cg, pi),
        is_walk(res, p, q),
        0 <= i <= j <= q.len(),
    ensures
        walk_cost(cg, p, q, j) - walk_cost(cg, p, q, i) >= pi[p[j]] - pi[p[i]],
    decreases j - i,
{
    if j > i {
        lemma_walk_rise(res, cg, pi, p, q, i, j - 1);
        assert(walk_step(res, p, q, j - 1));
    }
}

/// Among `n + 1` vertices below `n`, two are equal.
pub proof fn lemma_pigeonhole(p: Seq<int>, n: int)
    requires
        0 <= n,
        p.len() == n + 1,
        forall|k: int| 0 <= k < p.len() ==> 0 <= #[trigger] p[k] < n,
    ensures
        exists|i: int, j: int| 0 <= i < j < p.len() && #[trigger] p[i] == #[trigger] p[j],
{
    if p.no_duplicates() {
        p.unique_seq_to_set();
        lemma_int_range(0, n);
        assert(p.to_set().subset_of(set_int_range(0, n))) by {
            assert forall|x: int| p.to_set().contains(x) implies set_int_range(0, n).contains(x) by {
                let k = choose|k: int| 0 <= k < p.len() && p[k] == x;
                assert(0 <= p[k] < n);
            }
        }
        lemma_len_subset(p.to_set(), set_int_range(0, n));
    } else {
        let (i, j) = choose|i: int, j: int| 0 <= i < p.len() && 0 <= j < p.len() && i != j && p[i] == p[j];
        if i < j {
            assert(p[i] == p[j]);
        } else {
            assert(p[j] == p[i]);
        }
    }
}

/// Cutting the closed part `p[i..j]` out of a walk leaves a walk.
pub open spec fn spliced_p(p: Seq<int>, i: int, j: int) -> Seq<int> {
    Seq::new((p.len() - (j - i)) as nat, |k: int| if k <= i { p[k] } else { p[k + j - i] })
}

/// The slots of a walk with its closed part `p[i..j]` cut out.
pub open spec fn spliced_q(q: Seq<int>, i: int, j: int) -> Seq<int> {
    Seq::new((q.len() - (j - i)) as nat, |k: int| if k < i { q[k] } else { q[k + j - i] })
}

proof fn lemma_splice_cost(cg: Seq<Seq<i64>>, p: Seq<int>, q: Seq<int>, i: int, j: int, m: int)
    requires
        p.len() == q.len() + 1,
        0 <= i < j <= q.len(),
        p[i] == p[j],
        0 <= m <= q.len() - (j - i),
    ensures
        walk_cost(cg, spliced_p(p, i, j), spliced_q(q, i, j), m) == if m <= i {
            walk_cost(cg, p, q, m)
        } else {
            walk_cost(cg, p, q, m + j - i) - (walk_cost(cg, p, q, j) - walk_cost(cg, p, q, i))
        },
    decreases m,
{
    if m > 0 {
        lemma_splice_cost(cg, p, q, i, j, m - 1);
        let p2 = spliced_p(p, i, j);
        let q2 = spliced_q(q, i, j);
        let k = m - 1;
        if k < i {
            assert(p2[k] == p[k] && q2[k] == q[k]);
        } else {
            assert(q2[k] == q[k + j - i]);
            if k == i {
                assert(p2[k] == p[i]);
                assert(p[i] == p[k + j - i]);
            } else {
                assert(p2[k] == p[k + j - i]);
            }
        }
    }
}

/// The steps `i` to `i + m` of a walk form a walk, costing what those steps cost.
proof fn lemma_sub_walk(res: Seq<Seq<Slot>>, cg: Seq<Seq<i64>>, p: Seq<int>, q: Seq<int>, i: int, m: int)
    requires
        is_walk(res, p, q),
        0 <= i,
        0 <= m,
        i + m <= q.len(),
    ensures
        is_walk(res, p.subrange(i, i + m + 1), q.subrange(i, i + m)),
        walk_cost(cg, p.subrange(i, i + m + 1), q.subrange(i, i + m), m) == walk_cost(cg, p, q, i + m) - walk_cost(
            cg,
            p,
            q,
            i,
        ),
    decreases m,
{
    let p2 = p.subrange(i, i + m + 1);
    let q2 = q.subrange(i, i + m);
    assert forall|k: int| 0 <= k < q2.len() implies #[trigger] walk_step(res, p2, q2, k) by {
        assert(walk_step(res, p, q, i + k));
        assert(p2[k] == p[i + k] && p2[k + 1] == p[i + k + 1] && q2[k] == q[i + k]);
    }
    if m > 0 {
        lemma_sub_walk(res, cg, p, q, i, m - 1);
        lemma_walk_cost_ext(cg, p.subrange(i, i + m), q.subrange(i, i + m - 1), p2, q2, m - 1);
        assert(p2[m - 1] == p[i + m - 1] && q2[m - 1] == q[i + m - 1]);
    }
}

/// Every walk can be shortened to one of fewer than `n` steps, between the
/// same vertices, that costs no more, when no cycle costs less than nothing.
pub proof fn lemma_short_walk(res: Seq<Seq<Slot>>, cg: Seq<Seq<i64>>, p: Seq<int>, q: Seq<int>)
    requires
        bounds_ok(res.len() as int, res),
        !negative_cycle(res, cg),
        is_walk(res, p, q),
        0 <= p[0] < res.len(),
    ensures
        exists|p2: Seq<int>, q2: Seq<int>|
            #[trigger] is_walk(res, p2, q2) && p2[0] == p[0] && p2.last() == p.last() && q2.len() < res.len()
                && walk_cost(cg, p2, q2, q2.len() as int) <= walk_cost(cg, p, q, q.len() as int),
    decreases q.len(),
{
    let n = res.len() as int;
    if q.len() < n {
        assert(is_walk(res, p, q));
    } else {
        let head = p.take(n + 1);
        assert forall|k: int| 0 <= k < head.len() implies 0 <= #[trigger] head[k] < n by {
            if k == 0 {
                assert(head[0] == p[0]);
            } else {
                assert(walk_step(res, p, q, k - 1));
                assert(head[k] == p[k]);
            }
        }
        lemma_pigeonhole(head, n);
        let (i, j) = choose|i: int, j: int| 0 <= i < j < head.len() && #[trigger] head[i] == #[trigger] head[j];
        assert(p[i] == head[i] && p[j] == head[j]);
        let p2 = spliced_p(p, i, j);
        let q2 = spliced_q(q, i, j);
        assert forall|k: int| 0 <= k < q2.len() implies #[trigger] walk_step(res, p2, q2, k) by {
            if k < i {
                assert(walk_step(res, p, q, k));
                assert(p2[k] == p[k] && q2[k] == q[k]);
                assert(p2[k + 1] == p[k + 1]);
            } else {
                assert(walk_step(res, p, q, k + j - i));
                assert(q2[k] == q[k + j - i]);
                assert(p2[k + 1] == p[k + 1 + j - i]);
                if k == i {
                    assert(p2[k] == p[i]);
                } else {
                    assert(p2[k] == p[k + j - i]);
                }
            }
        }
        assert(is_walk(res, p2, q2));
        assert(p2[0] == p[0]);
        assert(p2.last() == p.last()) by {
            let l2 = p2.len() - 1;
            if l2 == i {
                assert(p2[l2] == p[i]);
                assert(j == q.len());
            } else {
                assert(p2[l2] == p[l2 + j - i]);
            }
        }
        lemma_splice_cost(cg, p, q, i, j, q2.len() as int);
        lemma_sub_walk(res, cg, p, q, i, j - i);
        let cp = p.subrange(i, j + 1);
        let cq = q.subrange(i, j);
        assert(cp[0] == p[i] && cp.last() == p[j]);
        assert(is_walk(res, cp, cq));
        lemma_short_walk(res, cg, p2, q2);
    }
}

/// A residual network with a potential holds no cycle of negative cost.
pub proof fn lemma_potential_no_negative_cycle(res: Seq<Seq<Slot>>, cg: Seq<Seq<i64>>, pi: Seq<int>)
    requires
        potential_ok(res, cg, pi),
    ensures
        !negative_cycle(res, cg),
{
    if negative_cycle(res, cg) {
        let (p, q) = choose|p: Seq<int>, q: Seq<int>|
            #[trigger] is_walk(res, p, q) && q.len() > 0 && p[0] == p.last() && walk_cost(cg, p, q, q.len() as int) < 0;
        lemma_walk_rise(res, cg, pi, p, q, 0, q.len() as int);
    }
}

/// Slot `x` of vertex `u` leads to `v` with capacity left.
pub open spec fn slot_into(res: Seq<Seq<Slot>>, u: int, x: int, v: int) -> bool {
    0 <= x < res[u].len() && res[u][x].1 > 0 && res[u][x].0 as int == v
}

/// The least of `d[v]` and of `d[u] + cg[u][x]` over the first `j` slots `x`
/// of `u` that lead to `v` with capacity left.
pub open spec fn row_min(res: Seq<Seq<Slot>>, cg: Seq<Seq<i64>>, d: Seq<int>, u: int, v: int, j: int) -> int
    decreases j,
{
    if j <= 0 {
        d[v]
    } else {
        let m = row_min(res, cg, d, u, v, j - 1);
        if slot_into(res, u, j - 1, v) && d[u] + cg[u][j - 1] < m {
            d[u] + cg[u][j - 1]
        } else {
            m
        }
    }
}

/// The least of `d[v]` and of `d[u] + cg[u][x]` over the slots `x` of the
/// first `m` vertices `u` that lead to `v` with capacity left.
pub open spec fn col_min(res: Seq<Seq<Slot>>, cg: Seq<Seq<i64>>, d: Seq<int>, v: int, m: int) -> int
    decreases m,
{
    if m <= 0 {
        d[v]
    } else {
        let a = col_min(res, cg, d, v, m - 1);
        let b = row_min(res, cg, d, m - 1, v, res[m - 1].len() as int);
        if b < a {
            b
        } else {
            a
        }
    }
}

/// One round of relaxation of every slot with capacity left.
pub open spec fn relax_all(res: Seq<Seq<Slot>>, cg: Seq<Seq<i64>>, d: Seq<int>) -> Seq<int> {
    Seq::new(d.len(), |v: int| col_min(res, cg, d, v, res.len() as int))
}

/// For every vertex, the least cost of a walk of at most `k` steps that ends there.
pub open spec fn walk_floor(res: Seq<Seq<Slot>>, cg: Seq<Seq<i64>>, k: int) -> Seq<int>
    decreases k,
{
    if k <= 0 {
        Seq::new(res.len(), |v: int| 0int)
    } else {
        relax_all(res, cg, walk_floor(res, cg, k - 1))
    }
}

proof fn lemma_row_min(res: Seq<Seq<Slot>>, cg: Seq<Seq<i64>>, d: Seq<int>, u: int, v: int, j: int)
    ensures
        row_min(res, cg, d, u, v, j) <= d[v],
        forall|x: int| 0 <= x < j && #[trigger] slot_into(res, u, x, v) ==> row_min(res, cg, d, u, v, j) <= d[u] + cg[u][x],
        row_min(res, cg, d, u, v, j) == d[v] || exists|x: int|
            0 <= x < j && #[trigger] slot_into(res, u, x, v) && row_min(res, cg, d, u, v, j) == d[u] + cg[u][x],
    decreases j,
{
    if j > 0 {
        lemma_row_min(res, cg, d, u, v, j - 1);
    }
}

proof fn lemma_col_min(res: Seq<Seq<Slot>>, cg: Seq<Seq<i64>>, d: Seq<int>, v: int, m: int)
    ensures
        col_min(res, cg, d, v, m) <= d[v],
        forall|u: int, x: int|
            0 <= u < m && #[trigger] slot_into(res, u, x, v) ==> col_min(res, cg, d, v, m) <= d[u] + cg[u][x],
        col_min(res, cg, d, v, m) == d[v] || exists|u: int, x: int|
            0 <= u < m && #[trigger] slot_into(res, u, x, v) && col_min(res, cg, d, v, m) == d[u] + cg[u][x],
    decreases m,
{
    if m > 0 {
        lemma_col_min(res, cg, d, v, m - 1);
        lemma_row_min(res, cg, d, m - 1, v, res[m - 1].len() as int);
    }
}

proof fn lemma_floor_len(res: Seq<Seq<Slot>>, cg: Seq<Seq<i64>>, k: int)
    ensures
        walk_floor(res, cg, k).len() == res.len(),
    decreases k,
{
    if k > 0 {
        lemma_floor_len(res, cg, k - 1);
    }
}

/// One more round of relaxation lowers no vertex below its bound, and
/// lowers it at least to what any slot into it offers.
proof fn lemma_floor_step(res: Seq<Seq<Slot>>, cg: Seq<Seq<i64>>, k: int, v: int)
    requires
        0 < k,
        0 <= v < res.len(),
    ensures
        walk_floor(res, cg, k)[v] <= walk_floor(res, cg, k - 1)[v],
        forall|u: int, x: int|
            0 <= u < res.len() && #[trigger] slot_into(res, u, x, v) ==> walk_floor(res, cg, k)[v] <= walk_floor(
                res,
                cg,
                k - 1,
            )[u] + cg[u][x],
        walk_floor(res, cg, k)[v] == walk_floor(res, cg, k - 1)[v] || exists|u: int, x: int|
            0 <= u < res.len() && #[trigger] slot_into(res, u, x, v) && walk_floor(res, cg, k)[v] == walk_floor(
                res,
                cg,
                k - 1,
            )[u] + cg[u][x],
{
    lemma_floor_len(res, cg, k - 1);
    lemma_col_min(res, cg, walk_floor(res, cg, k - 1), v, res.len() as int);
}

/// The bound of every vertex after `k` rounds is the cost of a walk of at
/// most `k` steps that ends there.
proof fn lemma_floor_witness(res: Seq<Seq<Slot>>, cg: Seq<Seq<i64>>, k: int, v: int)
    requires
        bounds_ok(res.len() as int, res),
        0 <= v < res.len(),
    ensures
        exists|p: Seq<int>, q: Seq<int>|
            #[trigger] is_walk(res, p, q) && p.last() == v && 0 <= p[0] < res.len() && q.len() <= (if k < 0 {
                0
            } else {
                k
            }) && walk_cost(cg, p, q, q.len() as int) == walk_floor(res, cg, k)[v],
    decreases k,
{
    if k <= 0 {
        let p = seq![v];
        let q = Seq::<int>::empty();
        assert(is_walk(res, p, q));
        assert(p.last() == v);
    } else {
        lemma_floor_step(res, cg, k, v);
        let d = walk_floor(res, cg, k - 1);
        if walk_floor(res, cg, k)[v] == d[v] {
            lemma_floor_witness(res, cg, k - 1, v);
        } else {
            let (u, x) = choose|u: int, x: int|
                0 <= u < res.len() && #[trigger] slot_into(res, u, x, v) && walk_floor(res, cg, k)[v] == d[u] + cg[u][x];
            lemma_floor_witness(res, cg, k - 1, u);
            let (p, q) = choose|p: Seq<int>, q: Seq<int>|
                #[trigger] is_walk(res, p, q) && p.last() == u && 0 <= p[0] < res.len() && q.len() <= k - 1
                    && walk_cost(cg, p, q, q.len() as int) == d[u];
            lemma_walk_push(res, cg, p, q, x);
            let p2 = p.push(v);
            assert(p2.last() == v);
            assert(is_walk(res, p2, q.push(x)));
        }
    }
}

/// No walk of at most `k` steps costs less than the bound after `k` rounds
/// of the vertex where it ends.
proof fn lemma_floor_below(res: Seq<Seq<Slot>>, cg: Seq<Seq<i64>>, k: int, p: Seq<int>, q: Seq<int>)
    requires
        bounds_ok(res.len() as int, res),
        is_walk(res, p, q),
        0 <= p.last() < res.len(),
        q.len() <= k,
    ensures
        walk_floor(res, cg, k)[p.last()] <= walk_cost(cg, p, q, q.len() as int),
    decreases k,
{
    let v = p.last();
    if q.len() == 0 {
        if k > 0 {
            lemma_floor_step(res, cg, k, v);
            lemma_floor_below(res, cg, k - 1, p, q);
        }
    } else {
        let m = q.len() - 1;
        lemma_walk_prefix(res, cg, p, q);
        assert(walk_step(res, p, q, m));
        let u = p[m];
        let x = q[m];
        assert(slot_into(res, u, x, v));
        lemma_floor_below(res, cg, k - 1, p.drop_last(), q.drop_last());
        lemma_floor_step(res, cg, k, v);
    }
}

/// A residual network has a potential exactly when it holds no cycle of
/// negative cost: the least cost of a walk of fewer than `n` steps ending at
/// each vertex is one.
pub proof fn law_potential_iff_no_negative_cycle(res: Seq<Seq<Slot>>, cg: Seq<Seq<i64>>)
    requires
        bounds_ok(res.len() as int, res),
    ensures
        has_potential(res, cg) <==> !negative_cycle(res, cg),
{
    if has_potential(res, cg) {
        let pi = choose|pi: Seq<int>| potential_ok(res, cg, pi);
        lemma_potential_no_negative_cycle(res, cg, pi);
    }
    if !negative_cycle(res, cg) {
        let n = res.len() as int;
        let pi = walk_floor(res, cg, n - 1);
        lemma_floor_len(res, cg, n - 1);
        assert forall|u: int, i: int|
            #![trigger res[u][i]]
            0 <= u < res.len() && 0 <= i < res[u].len() && res[u][i].1 > 0 implies cg[u][i] + pi[u] - pi[res[u][i].0 as int]
            >= 0 by {
            let v = res[u][i].0 as int;
            assert(slot_into(res, u, i, v));
            lemma_floor_step(res, cg, n, v);
            lemma_floor_witness(res, cg, n, v);
            let (p, q) = choose|p: Seq<int>, q: Seq<int>|
                #[trigger] is_walk(res, p, q) && p.last() == v && 0 <= p[0] < res.len() && q.len() <= n
                    && walk_cost(cg, p, q, q.len() as int) == walk_floor(res, cg, n)[v];
            lemma_short_walk(res, cg, p, q);
            let (p2, q2) = choose|p2: Seq<int>, q2: Seq<int>|
                #[trigger] is_walk(res, p2, q2) && p2[0] == p[0] && p2.last() == p.last() && q2.len() < res.len()
                    && walk_cost(cg, p2, q2, q2.len() as int) <= walk_cost(cg, p, q, q.len() as int);
            lemma_floor_below(res, cg, n - 1, p2, q2);
        }
        assert(potential_ok(res, cg, pi));
    }
}

/// Pushing flow through a slot of reduced cost 0 keeps a potential: the
/// slot's pair, which gains capacity, has reduced cost 0 as well.
pub proof fn lemma_augment_potential(
    n: int,
    orig: Seq<Seq<Slot>>,
    res: Seq<Seq<Slot>>,
    es: Seq<EdgeRef>,
    ow: Seq<Seq<(int, bool)>>,
    cg: Seq<Seq<i64>>,
    pi: Seq<int>,
    u: int,
    i: int,
    p: u64,
)
    requires
        bounds_ok(n, orig),
        edges_ok(n, orig, es, ow),
        residual_ok(orig, res, es),
        costs_ok(orig, es, cg),
        potential_ok(res, cg, pi),
        0 <= u < n,
        0 <= i < res[u].len(),
        res[u][i].0 != u,
        p <= res[u][i].1,
        cg[u][i] + pi[u] - pi[res[u][i].0 as int] == 0,
    ensures
        potential_ok(augmented(res, u, i, p), cg, pi),
{
    lemma_augment_slot(n, orig, res, es, ow, u, i, p);
    let v = res[u][i].0 as int;
    let r = res[u][i].2 as int;
    let aug = augmented(res, u, i, p);
    let (k, fwd) = ow[u][i];
    let e = es[k];
    assert(edge_slots_ok(n, orig, e));
    assert(orig[u][i].0 == res[u][i].0 && orig[u][i].2 == res[u][i].2);
    assert(cg[e.to][e.ti] == -cg[e.from][e.fi]);
    if fwd {
        assert(e.from == u && e.fi == i && e.to == v && e.ti == r);
    } else {
        assert(e.to == u && e.ti == i && e.from == v && e.fi == r);
    }
    assert(cg[v][r] == -cg[u][i]);
    assert forall|x: int, j: int|
        #![trigger aug[x][j]]
        0 <= x < aug.len() && 0 <= j < aug[x].len() && aug[x][j].1 > 0 implies cg[x][j] + pi[x] - pi[aug[x][j].0 as int]
        >= 0 by {
        if x == v && j == r {
            assert(aug[x][j].0 as int == u);
        } else if x == u && j == i {
            assert(aug[x][j].0 == res[x][j].0);
            assert(res[x][j].1 > 0);
        } else {
            assert(aug[x][j] == res[x][j]);
        }
    }
}

} // verus!
