//! Why a feasible answer meets the demands, on networks without lower bounds
//! whose edges join distinct pairs of vertices.
//!
//! The net outflow of every vertex of the reduction splits into what the
//! graph's edges carry and what the edges to and from the super-source and
//! super-sink carry.  When the super-source sends all it must, every edge
//! leaving it and every edge entering the super-sink is saturated, and
//! conservation then says that every vertex receives its demand.
use vstd::prelude::*;

use crate::circulation::{
    adjusted, edge_triples, excess, reduction_edges, required, total_demand, vertex_triples,
};
use crate::circulation::circulation_flows;
use crate::cost_spec::{lemma_cost_zero_weights, lemma_rises_are_pot_sum, pot_sum, rises};
use crate::flow_spec::{
    is_flow, cap_total, caps_of, edge_slots_ok, flow_of, lemma_endpoints, lemma_flow_of_bounds,
    lemma_slots_bounded, net, net_upto, network_ok, residual_ok, EdgeRef, Slot,
};
use crate::max_flow::{flow_list, flow_row, ford_fulkerson_outcome};

verus! {

/// What a triple `(from, to, _)` carrying `x` adds to the net outflow of `w`.
pub open spec fn triple_share(e: (usize, usize, u64), x: int, w: int) -> int {
    (if e.0 as int == w { x } else { 0 }) - (if e.1 as int == w { x } else { 0 })
}

/// Net outflow of `w` over the first `m` triples of `tr`, the `j`-th carrying `f[off + j]`.
pub open spec fn tnet(tr: Seq<(usize, usize, u64)>, f: Seq<int>, off: int, w: int, m: int) -> int
    decreases m,
{
    if m <= 0 {
        0
    } else {
        tnet(tr, f, off, w, m - 1) + triple_share(tr[m - 1], f[off + m - 1], w)
    }
}

/// Nets over edges with the endpoints of the triples are nets over the triples.
pub proof fn lemma_net_is_tnet(es: Seq<EdgeRef>, tr: Seq<(usize, usize, u64)>, f: Seq<int>, w: int, m: int)
    requires
        0 <= m <= es.len(),
        es.len() == tr.len(),
        forall|k: int| #![trigger es[k]] 0 <= k < es.len() ==> es[k].from == tr[k].0 && es[k].to == tr[k].1,
    ensures
        net_upto(es, f, w, m) == tnet(tr, f, 0, w, m),
    decreases m,
{
    if m > 0 {
        lemma_net_is_tnet(es, tr, f, w, m - 1);
        assert(es[m - 1] == es[m - 1]);
    }
}

proof fn lemma_tnet_prefix(a: Seq<(usize, usize, u64)>, b: Seq<(usize, usize, u64)>, f: Seq<int>, off: int, w: int, m: int)
    requires
        0 <= m <= a.len(),
    ensures
        tnet(a + b, f, off, w, m) == tnet(a, f, off, w, m),
    decreases m,
{
    if m > 0 {
        lemma_tnet_prefix(a, b, f, off, w, m - 1);
        assert((a + b)[m - 1] == a[m - 1]);
    }
}

/// Nets over a concatenation add up.
pub proof fn lemma_tnet_concat(a: Seq<(usize, usize, u64)>, b: Seq<(usize, usize, u64)>, f: Seq<int>, off: int, w: int, j: int)
    requires
        0 <= j <= b.len(),
    ensures
        tnet(a + b, f, off, w, a.len() + j) == tnet(a, f, off, w, a.len() as int) + tnet(b, f, off + a.len(), w, j),
    decreases j,
{
    if j == 0 {
        lemma_tnet_prefix(a, b, f, off, w, a.len() as int);
    } else {
        lemma_tnet_concat(a, b, f, off, w, j - 1);
        assert((a + b)[a.len() + j - 1] == b[j - 1]);
        assert(off + (a.len() + j) - 1 == (off + a.len()) + j - 1);
    }
}

/// What graph edge `i` carries: the flow on its edge of the reduction, or 0
/// when it has none (no room above its lower bound).
pub open spec fn gflow(es: Seq<(usize, usize, u64, u64)>, f: Seq<int>, i: int) -> int {
    if es[i].3 > es[i].2 {
        f[edge_triples(es, i).len() as int]
    } else {
        0
    }
}

/// Net outflow of `w` over the first `k` graph edges, each carrying its `gflow`.
pub open spec fn gnet(es: Seq<(usize, usize, u64, u64)>, f: Seq<int>, w: int, k: int) -> int
    decreases k,
{
    if k <= 0 {
        0
    } else {
        gnet(es, f, w, k - 1) + (if es[k - 1].0 as int == w { gflow(es, f, k - 1) } else { 0 }) - (if es[k - 1].1 as int
            == w {
            gflow(es, f, k - 1)
        } else {
            0
        })
    }
}

/// Over the edges of the reduction made from graph edges, nets are those of the graph edges.
pub proof fn lemma_edge_block(es: Seq<(usize, usize, u64, u64)>, f: Seq<int>, w: int, k: int)
    requires
        0 <= k <= es.len(),
    ensures
        tnet(edge_triples(es, k), f, 0, w, edge_triples(es, k).len() as int) == gnet(es, f, w, k),
    decreases k,
{
    if k > 0 {
        lemma_edge_block(es, f, w, k - 1);
        let a = edge_triples(es, k - 1);
        let e = es[k - 1];
        if e.3 > e.2 {
            let b = seq![(e.0, e.1, (e.3 - e.2) as u64)];
            assert(edge_triples(es, k) == a + b);
            lemma_tnet_concat(a, b, f, 0, w, 1);
            assert(tnet(b, f, a.len() as int, w, 0) == 0);
            assert(tnet(b, f, a.len() as int, w, 1) == triple_share(b[0], f[a.len() as int], w));
        } else {
            let b = Seq::<(usize, usize, u64)>::empty();
            assert(edge_triples(es, k) == a + b);
            lemma_tnet_concat(a, b, f, 0, w, 0);
            assert(a + b =~= a);
            assert(tnet(b, f, a.len() as int, w, 0) == 0);
        }
    }
}

/// The triple for vertex `v` of the reduction's vertex block, if any.
pub open spec fn vertex_entry(n: int, a: int, v: int) -> Seq<(usize, usize, u64)> {
    if a < 0 {
        seq![(n as usize, v as usize, (-a) as u64)]
    } else if a > 0 {
        seq![(v as usize, (n + 1) as usize, a as u64)]
    } else {
        Seq::empty()
    }
}

/// Net outflow of `w` over the vertex block's triples of the first `m`
/// vertices, which start at `off` in the flow.
pub open spec fn vnet(n: int, ds: Seq<i64>, es: Seq<(usize, usize, u64, u64)>, f: Seq<int>, off: int, w: int, m: int) -> int
    decreases m,
{
    if m <= 0 {
        0
    } else {
        let a = adjusted(ds, es, m - 1);
        let pos = off + vertex_triples(n, ds, es, m - 1).len();
        vnet(n, ds, es, f, off, w, m - 1) + (if a != 0 {
            triple_share(vertex_entry(n, a, m - 1)[0], f[pos], w)
        } else {
            0
        })
    }
}

pub proof fn lemma_vertex_block(n: int, ds: Seq<i64>, es: Seq<(usize, usize, u64, u64)>, f: Seq<int>, off: int, w: int, m: int)
    requires
        0 <= m,
    ensures
        vertex_triples(n, ds, es, m) == (if m <= 0 {
            Seq::<(usize, usize, u64)>::empty()
        } else {
            vertex_triples(n, ds, es, m - 1) + vertex_entry(n, adjusted(ds, es, m - 1), m - 1)
        }),
        tnet(vertex_triples(n, ds, es, m), f, off, w, vertex_triples(n, ds, es, m).len() as int) == vnet(
            n,
            ds,
            es,
            f,
            off,
            w,
            m,
        ),
    decreases m,
{
    if m > 0 {
        lemma_vertex_block(n, ds, es, f, off, w, m - 1);
        let a = vertex_triples(n, ds, es, m - 1);
        let b = vertex_entry(n, adjusted(ds, es, m - 1), m - 1);
        assert(vertex_triples(n, ds, es, m) == a + b);
        lemma_tnet_concat(a, b, f, off, w, b.len() as int);
        assert(tnet(b, f, off + a.len(), w, 0) == 0);
        if b.len() == 0 {
            assert(a + b =~= a);
        } else {
            assert(tnet(b, f, off + a.len(), w, 1) == triple_share(b[0], f[off + a.len()], w));
        }
    }
}

/// Where vertex `v`'s triple stands in the flow, when it has one.
pub open spec fn vpos(n: int, ds: Seq<i64>, es: Seq<(usize, usize, u64, u64)>, off: int, v: int) -> int {
    off + vertex_triples(n, ds, es, v).len()
}

/// What the super-source sends to the first `m` vertices.
pub open spec fn src_flow(n: int, ds: Seq<i64>, es: Seq<(usize, usize, u64, u64)>, f: Seq<int>, off: int, m: int) -> int
    decreases m,
{
    if m <= 0 {
        0
    } else {
        src_flow(n, ds, es, f, off, m - 1) + (if adjusted(ds, es, m - 1) < 0 { f[vpos(n, ds, es, off, m - 1)] } else { 0 })
    }
}

/// What the first `m` vertices send to the super-sink.
pub open spec fn sink_flow(n: int, ds: Seq<i64>, es: Seq<(usize, usize, u64, u64)>, f: Seq<int>, off: int, m: int) -> int
    decreases m,
{
    if m <= 0 {
        0
    } else {
        sink_flow(n, ds, es, f, off, m - 1) + (if adjusted(ds, es, m - 1) > 0 { f[vpos(n, ds, es, off, m - 1)] } else { 0 })
    }
}

/// Capacity of the edges into the super-sink from the first `m` vertices.
pub open spec fn sink_cap(ds: Seq<i64>, es: Seq<(usize, usize, u64, u64)>, m: int) -> int
    decreases m,
{
    if m <= 0 {
        0
    } else {
        sink_cap(ds, es, m - 1) + (if adjusted(ds, es, m - 1) > 0 { adjusted(ds, es, m - 1) } else { 0 })
    }
}

/// The vertex block's share of the net outflow of vertex `w`: only its own triple counts.
pub proof fn lemma_vnet_vertex(n: int, ds: Seq<i64>, es: Seq<(usize, usize, u64, u64)>, f: Seq<int>, off: int, w: int, m: int)
    requires
        0 <= w < n,
        0 <= m <= n,
        n + 1 <= usize::MAX,
    ensures
        vnet(n, ds, es, f, off, w, m) == (if w < m {
            if adjusted(ds, es, w) < 0 {
                -f[vpos(n, ds, es, off, w)]
            } else if adjusted(ds, es, w) > 0 {
                f[vpos(n, ds, es, off, w)]
            } else {
                0
            }
        } else {
            0
        }),
    decreases m,
{
    if m > 0 {
        lemma_vnet_vertex(n, ds, es, f, off, w, m - 1);
    }
}

/// The vertex block's share of the net outflow of the super-source.
pub proof fn lemma_vnet_source(n: int, ds: Seq<i64>, es: Seq<(usize, usize, u64, u64)>, f: Seq<int>, off: int, m: int)
    requires
        0 <= m <= n,
        n + 1 <= usize::MAX,
    ensures
        vnet(n, ds, es, f, off, n, m) == src_flow(n, ds, es, f, off, m),
    decreases m,
{
    if m > 0 {
        lemma_vnet_source(n, ds, es, f, off, m - 1);
    }
}

/// The vertex block's share of the net outflow of the super-sink.
pub proof fn lemma_vnet_sink(n: int, ds: Seq<i64>, es: Seq<(usize, usize, u64, u64)>, f: Seq<int>, off: int, m: int)
    requires
        0 <= m <= n,
        n + 1 <= usize::MAX,
    ensures
        vnet(n, ds, es, f, off, n + 1, m) == -sink_flow(n, ds, es, f, off, m),
    decreases m,
{
    if m > 0 {
        lemma_vnet_sink(n, ds, es, f, off, m - 1);
    }
}

/// The triple of vertex `v` in the vertex block.
pub proof fn lemma_vertex_entry_at(n: int, ds: Seq<i64>, es: Seq<(usize, usize, u64, u64)>, v: int, m: int)
    requires
        0 <= v < m,
        adjusted(ds, es, v) != 0,
    ensures
        vertex_triples(n, ds, es, v).len() < vertex_triples(n, ds, es, m).len(),
        vertex_triples(n, ds, es, m)[vertex_triples(n, ds, es, v).len() as int] == vertex_entry(n, adjusted(ds, es, v), v)[0],
    decreases m,
{
    lemma_vertex_block(n, ds, es, Seq::empty(), 0, 0, m);
    if v < m - 1 {
        lemma_vertex_entry_at(n, ds, es, v, m - 1);
    } else {
        lemma_vertex_block(n, ds, es, Seq::empty(), 0, 0, v);
    }
}

/// The triple of graph edge `i` in the edge block.
pub proof fn lemma_edge_entry_at(es: Seq<(usize, usize, u64, u64)>, i: int, k: int)
    requires
        0 <= i < k <= es.len(),
        es[i].3 > es[i].2,
    ensures
        edge_triples(es, i).len() < edge_triples(es, k).len(),
        edge_triples(es, k)[edge_triples(es, i).len() as int] == (es[i].0, es[i].1, (es[i].3 - es[i].2) as u64),
    decreases k,
{
    if i < k - 1 {
        lemma_edge_entry_at(es, i, k - 1);
        let a = edge_triples(es, k - 1);
        let e = es[k - 1];
        if e.3 > e.2 {
            assert(edge_triples(es, k) == a + seq![(e.0, e.1, (e.3 - e.2) as u64)]);
        } else {
            assert(edge_triples(es, k) =~= a);
        }
    }
}


/// Inflow less outflow of `v` over the first `m` reported flows.
pub open spec fn flow_balance(flows: Seq<(usize, usize, i128)>, v: int, m: int) -> int
    decreases m,
{
    if m <= 0 {
        0
    } else {
        flow_balance(flows, v, m - 1) + (if flows[m - 1].1 as int == v { flows[m - 1].2 as int } else { 0 }) - (
        if flows[m - 1].0 as int == v {
            flows[m - 1].2 as int
        } else {
            0
        })
    }
}

/// `flows` is a circulation: one flow per edge, between the edge's bounds,
/// and at every vertex the inflow less the outflow is the vertex's demand.
pub open spec fn is_circulation(ds: Seq<i64>, es: Seq<(usize, usize, u64, u64)>, flows: Seq<(usize, usize, i128)>) -> bool {
    &&& flows.len() == es.len()
    &&& forall|k: int|
        #![trigger flows[k]]
        0 <= k < flows.len() ==> flows[k].0 == es[k].0 && flows[k].1 == es[k].1 && es[k].2 <= flows[k].2 <= es[k].3
    &&& forall|v: int| 0 <= v < ds.len() ==> #[trigger] flow_balance(flows, v, flows.len() as int) == ds[v]
}

proof fn lemma_gnet_outside(es: Seq<(usize, usize, u64, u64)>, f: Seq<int>, w: int, k: int)
    requires
        0 <= k <= es.len(),
        forall|i: int| 0 <= i < k ==> (#[trigger] es[i]).0 as int != w && es[i].1 as int != w,
    ensures
        gnet(es, f, w, k) == 0,
    decreases k,
{
    if k > 0 {
        lemma_gnet_outside(es, f, w, k - 1);
        assert(es[k - 1].0 as int != w);
    }
}


/// Sum of what the lower bounds of the first `m` edges bring into the first `nv` vertices.
pub open spec fn excess_sum(es: Seq<(usize, usize, u64, u64)>, nv: int, m: int) -> int
    decreases nv,
{
    if nv <= 0 {
        0
    } else {
        excess_sum(es, nv - 1, m) + excess(es, nv - 1, m)
    }
}

proof fn lemma_excess_sum_step(es: Seq<(usize, usize, u64, u64)>, nv: int, m: int)
    requires
        0 <= m < es.len(),
    ensures
        excess_sum(es, nv, m + 1) == excess_sum(es, nv, m) - (if 0 <= es[m].0 < nv { es[m].2 as int } else { 0 }) + (
        if 0 <= es[m].1 < nv {
            es[m].2 as int
        } else {
            0
        }),
    decreases nv,
{
    if nv > 0 {
        lemma_excess_sum_step(es, nv - 1, m);
    }
}

proof fn lemma_excess_sum_zero(es: Seq<(usize, usize, u64, u64)>, n: int, m: int)
    requires
        0 <= m <= es.len(),
        forall|k: int| #![trigger es[k]] 0 <= k < es.len() ==> es[k].0 < n && es[k].1 < n,
    ensures
        excess_sum(es, n, m) == 0,
    decreases m,
{
    if m == 0 {
        lemma_excess_sum_none(es, n);
    } else {
        lemma_excess_sum_zero(es, n, m - 1);
        lemma_excess_sum_step(es, n, m - 1);
        assert(es[m - 1].0 < n);
    }
}

proof fn lemma_excess_sum_none(es: Seq<(usize, usize, u64, u64)>, nv: int)
    ensures
        excess_sum(es, nv, 0) == 0,
    decreases nv,
{
    if nv > 0 {
        lemma_excess_sum_none(es, nv - 1);
    }
}

proof fn lemma_sink_cap_required(ds: Seq<i64>, es: Seq<(usize, usize, u64, u64)>, m: int)
    requires
        m <= ds.len(),
    ensures
        sink_cap(ds, es, m) - required(ds, es, m) == total_demand(ds, m) - excess_sum(es, m, es.len() as int),
    decreases m,
{
    if m > 0 {
        lemma_sink_cap_required(ds, es, m - 1);
    }
}

proof fn lemma_src_saturated(n: int, ds: Seq<i64>, es: Seq<(usize, usize, u64, u64)>, f: Seq<int>, off: int, m: int)
    requires
        forall|v: int|
            0 <= v < m && adjusted(ds, es, v) < 0 ==> 0 <= #[trigger] f[vpos(n, ds, es, off, v)] <= -adjusted(ds, es, v),
    ensures
        src_flow(n, ds, es, f, off, m) <= required(ds, es, m),
        src_flow(n, ds, es, f, off, m) == required(ds, es, m) ==> forall|v: int|
            0 <= v < m && adjusted(ds, es, v) < 0 ==> #[trigger] f[vpos(n, ds, es, off, v)] == -adjusted(ds, es, v),
    decreases m,
{
    if m > 0 {
        lemma_src_saturated(n, ds, es, f, off, m - 1);
        if adjusted(ds, es, m - 1) < 0 {
            assert(0 <= f[vpos(n, ds, es, off, m - 1)] <= -adjusted(ds, es, m - 1));
        }
    }
}

proof fn lemma_sink_saturated(n: int, ds: Seq<i64>, es: Seq<(usize, usize, u64, u64)>, f: Seq<int>, off: int, m: int)
    requires
        forall|v: int|
            0 <= v < m && adjusted(ds, es, v) > 0 ==> 0 <= #[trigger] f[vpos(n, ds, es, off, v)] <= adjusted(ds, es, v),
    ensures
        sink_flow(n, ds, es, f, off, m) <= sink_cap(ds, es, m),
        sink_flow(n, ds, es, f, off, m) == sink_cap(ds, es, m) ==> forall|v: int|
            0 <= v < m && adjusted(ds, es, v) > 0 ==> #[trigger] f[vpos(n, ds, es, off, v)] == adjusted(ds, es, v),
    decreases m,
{
    if m > 0 {
        lemma_sink_saturated(n, ds, es, f, off, m - 1);
        if adjusted(ds, es, m - 1) > 0 {
            assert(0 <= f[vpos(n, ds, es, off, m - 1)] <= adjusted(ds, es, m - 1));
        }
    }
}

/// Inflow less outflow of flows that put on every graph edge its lower bound
/// plus its `gflow` is what the lower bounds bring in, less the graph edges'
/// net outflow.
proof fn lemma_balance_is_gnet(
    es: Seq<(usize, usize, u64, u64)>,
    flows: Seq<(usize, usize, i128)>,
    f: Seq<int>,
    v: int,
    m: int,
)
    requires
        0 <= m <= es.len(),
        flows.len() == es.len(),
        forall|k: int|
            #![trigger flows[k]]
            0 <= k < es.len() ==> flows[k].0 == es[k].0 && flows[k].1 == es[k].1 && flows[k].2 as int == es[k].2
                + gflow(es, f, k),
    ensures
        flow_balance(flows, v, m) == excess(es, v, m) - gnet(es, f, v, m),
    decreases m,
{
    if m > 0 {
        lemma_balance_is_gnet(es, flows, f, v, m - 1);
        assert(flows[m - 1].0 == es[m - 1].0);
    }
}







/// Every triple of the edge block comes from a graph edge with room above its lower bound.
proof fn lemma_edge_triple_source(es: Seq<(usize, usize, u64, u64)>, k: int, j: int)
    requires
        0 <= k <= es.len(),
        0 <= j < edge_triples(es, k).len(),
    ensures
        exists|i: int| 0 <= i < k && es[i].3 > es[i].2 && #[trigger] edge_triples(es, i).len() == j,
    decreases k,
{
    let a = edge_triples(es, k - 1);
    let e = es[k - 1];
    if e.3 > e.2 {
        assert(edge_triples(es, k) == a + seq![(e.0, e.1, (e.3 - e.2) as u64)]);
    } else {
        assert(edge_triples(es, k) =~= a);
    }
    if j < a.len() {
        lemma_edge_triple_source(es, k - 1, j);
        let i = choose|i: int| 0 <= i < k - 1 && es[i].3 > es[i].2 && #[trigger] edge_triples(es, i).len() == j;
        assert(edge_triples(es, i).len() == j);
    } else {
        assert(edge_triples(es, k - 1).len() == j);
    }
}

/// Every triple of the vertex block leaves the super-source or enters the super-sink.
proof fn lemma_vertex_triple_ends(n: int, ds: Seq<i64>, es: Seq<(usize, usize, u64, u64)>, m: int, j: int)
    requires
        0 <= m,
        0 <= j < vertex_triples(n, ds, es, m).len(),
    ensures
        vertex_triples(n, ds, es, m)[j].0 as int == n as usize as int || vertex_triples(n, ds, es, m)[j].1 as int
            == (n + 1) as usize as int,
    decreases m,
{
    lemma_vertex_block(n, ds, es, Seq::empty(), 0, 0, m);
    let a = vertex_triples(n, ds, es, m - 1);
    if j < a.len() {
        lemma_vertex_triple_ends(n, ds, es, m - 1, j);
    }
}

/// The network `orig`, with edges `ers` and owners `ow`, is the reduction of
/// the circulation network with `n` vertices, demands `ds` and edges `es`.
pub open spec fn is_circulation_reduction(
    n: int,
    ds: Seq<i64>,
    es: Seq<(usize, usize, u64, u64)>,
    orig: Seq<Seq<Slot>>,
    ers: Seq<EdgeRef>,
    ow: Seq<Seq<(int, bool)>>,
) -> bool {
    let tr = reduction_edges(n, ds, es);
    &&& 0 <= n
    &&& n + 2 <= usize::MAX
    &&& ds.len() == n
    &&& forall|k: int| #![trigger es[k]] 0 <= k < es.len() ==> es[k].0 < n && es[k].1 < n && es[k].2 <= es[k].3
    &&& forall|v: int| 0 <= v < n ==> -i64::MAX <= #[trigger] adjusted(ds, es, v) <= i64::MAX
    &&& network_ok(n + 2, orig, ers, ow)
    &&& orig.len() == n + 2
    &&& ers.len() == tr.len()
    &&& forall|k: int|
        #![trigger ers[k]]
        0 <= k < ers.len() ==> {
            &&& ers[k].from == tr[k].0
            &&& ers[k].to == tr[k].1
            &&& 0 <= ers[k].fi < orig[ers[k].from].len()
            &&& orig[ers[k].from][ers[k].fi].1 == tr[k].2
        }
}


proof fn lemma_pot_sum_ends(es: Seq<EdgeRef>, x: Seq<int>, pi: Seq<int>, nv: int, m: int, s: int, t: int)
    requires
        forall|w: int| 0 <= w < nv && w != s && w != t ==> #[trigger] net_upto(es, x, w, m) == 0,
        forall|w: int| 0 <= w < pi.len() ==> #[trigger] pi[w] == 1,
        nv <= pi.len(),
        s != t,
    ensures
        pot_sum(es, x, pi, nv, m) == (if 0 <= s < nv { net_upto(es, x, s, m) } else { 0 }) + (if 0 <= t < nv {
            net_upto(es, x, t, m)
        } else {
            0
        }),
    decreases nv,
{
    if nv > 0 {
        lemma_pot_sum_ends(es, x, pi, nv - 1, m, s, t);
        assert(pi[nv - 1] == 1);
        if nv - 1 != s && nv - 1 != t {
            assert(net_upto(es, x, nv - 1, m) == 0);
        }
    }
}



/// A conserved flow on the reduction that carries all the super-source must
/// send yields a circulation: every edge's flow between its bounds, every
/// vertex receiving its demand.
pub proof fn lemma_feasible_is_circulation(
    n: int,
    ds: Seq<i64>,
    es: Seq<(usize, usize, u64, u64)>,
    orig: Seq<Seq<Slot>>,
    ers: Seq<EdgeRef>,
    ow: Seq<Seq<(int, bool)>>,
    res: Seq<Seq<Slot>>,
)
    requires
        is_circulation_reduction(n, ds, es, orig, ers, ow),
        total_demand(ds, n) == 0,
        residual_ok(orig, res, ers),
        forall|w: int|
            0 <= w < n + 2 && w != n && w != n + 1 ==> #[trigger] net(ers, flow_of(orig, res, ers), w) == 0,
        net(ers, flow_of(orig, res, ers), n) == required(ds, es, n),
    ensures
        is_circulation(ds, es, circulation_flows(es, flow_of(orig, res, ers))),
{
    let nn = n + 2;
    let tr = reduction_edges(n, ds, es);
    let et = edge_triples(es, es.len() as int);
    let vt = vertex_triples(n, ds, es, n);
    let off = et.len() as int;
    let f = flow_of(orig, res, ers);
    let m = ers.len() as int;
    assert(tr == et + vt);
    lemma_flow_of_bounds(orig, res, ers);
    lemma_endpoints(nn, orig, ers, ow);
    // The net outflow of every vertex, block by block.
    assert forall|w: int| 0 <= w < nn implies #[trigger] net(ers, f, w) == gnet(es, f, w, es.len() as int) + vnet(
        n,
        ds,
        es,
        f,
        off,
        w,
        n,
    ) by {
        lemma_net_is_tnet(ers, tr, f, w, m);
        lemma_tnet_concat(et, vt, f, 0, w, vt.len() as int);
        lemma_edge_block(es, f, w, es.len() as int);
        lemma_vertex_block(n, ds, es, f, off, w, n);
    }
    // The edges at the super-source and the super-sink.
    assert forall|w: int| 0 <= w < n && adjusted(ds, es, w) != 0 implies {
        let a = adjusted(ds, es, w);
        &&& 0 <= #[trigger] f[vpos(n, ds, es, off, w)]
        &&& a < 0 ==> f[vpos(n, ds, es, off, w)] <= -a
        &&& a > 0 ==> f[vpos(n, ds, es, off, w)] <= a
    } by {
        lemma_vertex_entry_at(n, ds, es, w, n);
        let j = vertex_triples(n, ds, es, w).len() as int;
        assert(tr[off + j] == vt[j]);
        assert(ers[off + j] == ers[off + j]);
    }
    assert forall|w: int| 0 <= w < n && adjusted(ds, es, w) < 0 implies 0 <= #[trigger] f[vpos(n, ds, es, off, w)]
        <= -adjusted(ds, es, w) by {}
    assert forall|w: int| 0 <= w < n && adjusted(ds, es, w) > 0 implies 0 <= #[trigger] f[vpos(n, ds, es, off, w)]
        <= adjusted(ds, es, w) by {}
    lemma_src_saturated(n, ds, es, f, off, n);
    lemma_sink_saturated(n, ds, es, f, off, n);
    assert forall|w: int| 0 <= w < es.len() implies (#[trigger] es[w]).0 as int != n && es[w].0 as int != n + 1
        && es[w].1 as int != n && es[w].1 as int != n + 1 by {}
    lemma_gnet_outside(es, f, n, es.len() as int);
    lemma_gnet_outside(es, f, n + 1, es.len() as int);
    lemma_vnet_source(n, ds, es, f, off, n);
    lemma_vnet_sink(n, ds, es, f, off, n);
    // The super-source sends all it must.
    assert(net(ers, f, n) == src_flow(n, ds, es, f, off, n));
    assert(src_flow(n, ds, es, f, off, n) == required(ds, es, n));
    // So the super-sink receives as much, all its edges can take.
    let ones = Seq::new(nn as nat, |w: int| 1int);
    lemma_rises_are_pot_sum(nn, ers, f, ones, m);
    assert forall|k: int| 0 <= k < m implies #[trigger] rises(ers, ones)[k] == 0 by {
        assert(ers[k] == ers[k]);
    }
    lemma_cost_zero_weights(f, rises(ers, ones), m);
    assert forall|w: int| 0 <= w < nn && w != n && w != n + 1 implies #[trigger] net_upto(ers, f, w, m) == 0 by {
        assert(net(ers, f, w) == 0);
    }
    lemma_pot_sum_ends(ers, f, ones, nn, m, n, n + 1);
    assert(net(ers, f, n + 1) == -sink_flow(n, ds, es, f, off, n));
    lemma_sink_cap_required(ds, es, n);
    lemma_excess_sum_zero(es, n, es.len() as int);
    assert(sink_flow(n, ds, es, f, off, n) == sink_cap(ds, es, n));
    // Every vertex receives its demand.
    assert forall|w: int| 0 <= w < n implies #[trigger] gnet(es, f, w, es.len() as int) == -adjusted(ds, es, w) by {
        lemma_vnet_vertex(n, ds, es, f, off, w, n);
        assert(net(ers, f, w) == 0);
        if adjusted(ds, es, w) != 0 {
            assert(0 <= f[vpos(n, ds, es, off, w)]);
        }
    }
    // Every edge carries its lower bound plus what its edge of the reduction carries.
    let cf = circulation_flows(es, f);
    assert forall|k: int| #![trigger cf[k]] 0 <= k < es.len() implies cf[k].0 == es[k].0 && cf[k].1 == es[k].1
        && cf[k].2 as int == es[k].2 + gflow(es, f, k) && 0 <= gflow(es, f, k) <= es[k].3 - es[k].2 by {
        assert(es[k] == es[k]);
        if es[k].3 > es[k].2 {
            let p = edge_triples(es, k).len() as int;
            lemma_edge_entry_at(es, k, es.len() as int);
            assert(tr[p] == et[p]);
            assert(ers[p] == ers[p]);
            assert(0 <= f[p] <= caps_of(orig, ers)[p]);
            assert(caps_of(orig, ers)[p] == es[k].3 - es[k].2);
            assert(gflow(es, f, k) == f[p]);
        }
    }
    assert forall|w: int| 0 <= w < ds.len() implies #[trigger] flow_balance(cf, w, cf.len() as int) == ds[w] by {
        lemma_balance_is_gnet(es, cf, f, w, es.len() as int);
    }
}

/// The graph edges' triples join vertices below `n`.
pub proof fn lemma_edge_triples_in_range(es: Seq<(usize, usize, u64, u64)>, n: int, k: int)
    requires
        0 <= k <= es.len(),
        forall|i: int| #![trigger es[i]] 0 <= i < es.len() ==> es[i].0 < n && es[i].1 < n,
    ensures
        forall|j: int|
            #![trigger edge_triples(es, k)[j]]
            0 <= j < edge_triples(es, k).len() ==> edge_triples(es, k)[j].0 < n && edge_triples(es, k)[j].1 < n,
    decreases k,
{
    if k > 0 {
        lemma_edge_triples_in_range(es, n, k - 1);
        let a = edge_triples(es, k - 1);
        let e = es[k - 1];
        assert(e.0 < n && e.1 < n);
        if e.3 > e.2 {
            assert(edge_triples(es, k) == a + seq![(e.0, e.1, (e.3 - e.2) as u64)]);
        } else {
            assert(edge_triples(es, k) =~= a);
        }
        assert forall|j: int|
            #![trigger edge_triples(es, k)[j]]
            0 <= j < edge_triples(es, k).len() implies edge_triples(es, k)[j].0 < n && edge_triples(es, k)[j].1 < n by {
            if j < a.len() {
                assert(edge_triples(es, k)[j] == a[j]);
            }
        }
    }
}

/// The vertex block's triples join vertices below `n + 2`.
pub proof fn lemma_vertex_triples_in_range(n: int, ds: Seq<i64>, es: Seq<(usize, usize, u64, u64)>, m: int)
    requires
        0 <= m <= n,
        n + 2 <= usize::MAX,
    ensures
        forall|j: int|
            #![trigger vertex_triples(n, ds, es, m)[j]]
            0 <= j < vertex_triples(n, ds, es, m).len() ==> vertex_triples(n, ds, es, m)[j].0 < n + 2
                && vertex_triples(n, ds, es, m)[j].1 < n + 2,
    decreases m,
{
    if m > 0 {
        lemma_vertex_triples_in_range(n, ds, es, m - 1);
        lemma_vertex_block(n, ds, es, Seq::empty(), 0, 0, m);
        let a = vertex_triples(n, ds, es, m - 1);
        assert forall|j: int|
            #![trigger vertex_triples(n, ds, es, m)[j]]
            0 <= j < vertex_triples(n, ds, es, m).len() implies vertex_triples(n, ds, es, m)[j].0 < n + 2
            && vertex_triples(n, ds, es, m)[j].1 < n + 2 by {
            if j < a.len() {
                assert(vertex_triples(n, ds, es, m)[j] == a[j]);
            }
        }
    }
}

pub(crate) proof fn lemma_edge_pos_strict(es: Seq<(usize, usize, u64, u64)>, k1: int, k2: int)
    requires
        0 <= k1 < k2 <= es.len(),
        es[k1].3 > es[k1].2,
    ensures
        edge_triples(es, k1).len() < edge_triples(es, k2).len(),
    decreases k2,
{
    let a = edge_triples(es, k2 - 1);
    let e = es[k2 - 1];
    if e.3 > e.2 {
        assert(edge_triples(es, k2) == a + seq![(e.0, e.1, (e.3 - e.2) as u64)]);
    } else {
        assert(edge_triples(es, k2) =~= a);
    }
    if k1 < k2 - 1 {
        lemma_edge_pos_strict(es, k1, k2 - 1);
    }
}

proof fn lemma_edge_pos_mono(es: Seq<(usize, usize, u64, u64)>, k1: int, k2: int)
    requires
        0 <= k1 <= k2 <= es.len(),
    ensures
        edge_triples(es, k1).len() <= edge_triples(es, k2).len(),
    decreases k2,
{
    if k1 < k2 {
        lemma_edge_pos_mono(es, k1, k2 - 1);
        let a = edge_triples(es, k2 - 1);
        let e = es[k2 - 1];
        if e.3 > e.2 {
            assert(edge_triples(es, k2) == a + seq![(e.0, e.1, (e.3 - e.2) as u64)]);
        } else {
            assert(edge_triples(es, k2) =~= a);
        }
    }
}

proof fn lemma_vertex_pos_strict(n: int, ds: Seq<i64>, es: Seq<(usize, usize, u64, u64)>, v1: int, v2: int)
    requires
        0 <= v1 < v2,
        adjusted(ds, es, v1) != 0,
    ensures
        vertex_triples(n, ds, es, v1).len() < vertex_triples(n, ds, es, v2).len(),
    decreases v2,
{
    lemma_vertex_block(n, ds, es, Seq::empty(), 0, 0, v2);
    if v1 < v2 - 1 {
        lemma_vertex_pos_strict(n, ds, es, v1, v2 - 1);
    }
}

/// Every triple of the vertex block comes from a vertex with a nonzero adjusted demand.
proof fn lemma_vertex_triple_source(n: int, ds: Seq<i64>, es: Seq<(usize, usize, u64, u64)>, m: int, j: int)
    requires
        0 <= m,
        0 <= j < vertex_triples(n, ds, es, m).len(),
    ensures
        exists|v: int| 0 <= v < m && adjusted(ds, es, v) != 0 && #[trigger] vertex_triples(n, ds, es, v).len() == j,
    decreases m,
{
    lemma_vertex_block(n, ds, es, Seq::empty(), 0, 0, m);
    let a = vertex_triples(n, ds, es, m - 1);
    if j < a.len() {
        lemma_vertex_triple_source(n, ds, es, m - 1, j);
        let v = choose|v: int| 0 <= v < m - 1 && adjusted(ds, es, v) != 0 && #[trigger] vertex_triples(n, ds, es, v).len() == j;
        assert(vertex_triples(n, ds, es, v).len() == j);
    } else {
        assert(vertex_triples(n, ds, es, m - 1).len() == j);
    }
}

/// The graph edge whose triple stands at `j` of the edge block.
pub open spec fn edge_at(es: Seq<(usize, usize, u64, u64)>, j: int) -> int {
    choose|k: int| 0 <= k < es.len() && es[k].3 > es[k].2 && #[trigger] edge_triples(es, k).len() == j
}

/// The vertex whose triple stands at `j` of the vertex block.
pub open spec fn vertex_at(n: int, ds: Seq<i64>, es: Seq<(usize, usize, u64, u64)>, j: int) -> int {
    choose|v: int| 0 <= v < n && adjusted(ds, es, v) != 0 && #[trigger] vertex_triples(n, ds, es, v).len() == j
}

/// The flow on the reduction that a circulation defines: each graph edge's
/// flow above its lower bound on its edge, and every edge at the
/// super-source or super-sink full.
pub open spec fn reduction_flow(n: int, ds: Seq<i64>, es: Seq<(usize, usize, u64, u64)>, circ: Seq<(usize, usize, i128)>) -> Seq<int> {
    let ne = edge_triples(es, es.len() as int).len() as int;
    let nv = vertex_triples(n, ds, es, n).len() as int;
    Seq::new(
        (ne + nv) as nat,
        |j: int|
            if j < ne {
                circ[edge_at(es, j)].2 - es[edge_at(es, j)].2
            } else {
                let a = adjusted(ds, es, vertex_at(n, ds, es, j - ne));
                if a < 0 {
                    -a
                } else {
                    a
                }
            },
    )
}

/// Inflow less outflow summed over the first `nv` vertices.
pub open spec fn balance_sum(flows: Seq<(usize, usize, i128)>, nv: int, m: int) -> int
    decreases nv,
{
    if nv <= 0 {
        0
    } else {
        balance_sum(flows, nv - 1, m) + flow_balance(flows, nv - 1, m)
    }
}

proof fn lemma_balance_sum_step(flows: Seq<(usize, usize, i128)>, nv: int, m: int)
    requires
        0 <= m < flows.len(),
        0 <= nv,
    ensures
        balance_sum(flows, nv, m + 1) == balance_sum(flows, nv, m) + (if (flows[m].1 as int) < nv {
            flows[m].2 as int
        } else {
            0
        }) - (if (flows[m].0 as int) < nv { flows[m].2 as int } else { 0 }),
    decreases nv,
{
    if nv > 0 {
        lemma_balance_sum_step(flows, nv - 1, m);
    }
}

proof fn lemma_balance_sum_zero_edges(flows: Seq<(usize, usize, i128)>, nv: int)
    ensures
        balance_sum(flows, nv, 0) == 0,
    decreases nv,
{
    if nv > 0 {
        lemma_balance_sum_zero_edges(flows, nv - 1);
    }
}

/// Every edge brings to one vertex what it takes from another: the balances add up to 0.
proof fn lemma_balance_sum_zero(flows: Seq<(usize, usize, i128)>, n: int, m: int)
    requires
        0 <= n,
        0 <= m <= flows.len(),
        forall|k: int| #![trigger flows[k]] 0 <= k < flows.len() ==> flows[k].0 < n && flows[k].1 < n,
    ensures
        balance_sum(flows, n, m) == 0,
    decreases m,
{
    if m == 0 {
        lemma_balance_sum_zero_edges(flows, n);
    } else {
        lemma_balance_sum_zero(flows, n, m - 1);
        lemma_balance_sum_step(flows, n, m - 1);
        assert(flows[m - 1].0 < n);
    }
}

proof fn lemma_demands_are_balances(flows: Seq<(usize, usize, i128)>, ds: Seq<i64>, m: int)
    requires
        0 <= m <= ds.len(),
        forall|v: int| 0 <= v < ds.len() ==> #[trigger] flow_balance(flows, v, flows.len() as int) == ds[v],
    ensures
        total_demand(ds, m) == balance_sum(flows, m, flows.len() as int),
    decreases m,
{
    if m > 0 {
        lemma_demands_are_balances(flows, ds, m - 1);
        assert(flow_balance(flows, m - 1, flows.len() as int) == ds[m - 1]);
    }
}

proof fn lemma_src_full(n: int, ds: Seq<i64>, es: Seq<(usize, usize, u64, u64)>, f: Seq<int>, off: int, m: int)
    requires
        forall|v: int|
            0 <= v < m && adjusted(ds, es, v) < 0 ==> #[trigger] f[vpos(n, ds, es, off, v)] == -adjusted(ds, es, v),
    ensures
        src_flow(n, ds, es, f, off, m) == required(ds, es, m),
    decreases m,
{
    if m > 0 {
        lemma_src_full(n, ds, es, f, off, m - 1);
        if adjusted(ds, es, m - 1) < 0 {
            assert(f[vpos(n, ds, es, off, m - 1)] == -adjusted(ds, es, m - 1));
        }
    }
}

/// The net outflow of every vertex of the reduction, block by block.
proof fn lemma_net_split(
    n: int,
    ds: Seq<i64>,
    es: Seq<(usize, usize, u64, u64)>,
    orig: Seq<Seq<Slot>>,
    ers: Seq<EdgeRef>,
    ow: Seq<Seq<(int, bool)>>,
    f: Seq<int>,
    w: int,
)
    requires
        is_circulation_reduction(n, ds, es, orig, ers, ow),
    ensures
        net(ers, f, w) == gnet(es, f, w, es.len() as int) + vnet(
            n,
            ds,
            es,
            f,
            edge_triples(es, es.len() as int).len() as int,
            w,
            n,
        ),
{
    let tr = reduction_edges(n, ds, es);
    let et = edge_triples(es, es.len() as int);
    let vt = vertex_triples(n, ds, es, n);
    assert(tr == et + vt);
    lemma_net_is_tnet(ers, tr, f, w, ers.len() as int);
    lemma_tnet_concat(et, vt, f, 0, w, vt.len() as int);
    lemma_edge_block(es, f, w, es.len() as int);
    lemma_vertex_block(n, ds, es, f, et.len() as int, w, n);
}

/// A circulation gives the reduction a flow that sends all that the
/// super-source must send.
pub proof fn lemma_circulation_gives_flow(
    n: int,
    ds: Seq<i64>,
    es: Seq<(usize, usize, u64, u64)>,
    orig: Seq<Seq<Slot>>,
    ers: Seq<EdgeRef>,
    ow: Seq<Seq<(int, bool)>>,
    circ: Seq<(usize, usize, i128)>,
)
    requires
        is_circulation_reduction(n, ds, es, orig, ers, ow),
        is_circulation(ds, es, circ),
    ensures
        total_demand(ds, n) == 0,
        is_flow(n + 2, ers, caps_of(orig, ers), reduction_flow(n, ds, es, circ), n, n + 1),
        net(ers, reduction_flow(n, ds, es, circ), n) == required(ds, es, n),
        forall|k: int|
            #![trigger circ[k]]
            0 <= k < es.len() ==> circ[k].2 as int == es[k].2 + gflow(es, reduction_flow(n, ds, es, circ), k),
{
    let tr = reduction_edges(n, ds, es);
    let et = edge_triples(es, es.len() as int);
    let vt = vertex_triples(n, ds, es, n);
    let off = et.len() as int;
    let g = reduction_flow(n, ds, es, circ);
    let caps = caps_of(orig, ers);
    assert(tr == et + vt);
    // The demands add up to nothing.
    assert forall|k: int| #![trigger circ[k]] 0 <= k < circ.len() implies circ[k].0 < n && circ[k].1 < n by {
        assert(es[k] == es[k]);
    }
    lemma_demands_are_balances(circ, ds, n);
    lemma_balance_sum_zero(circ, n, circ.len() as int);
    // Capacities.
    assert forall|j: int| #![trigger g[j]] 0 <= j < ers.len() implies 0 <= g[j] <= caps[j] by {
        assert(ers[j] == ers[j]);
        if j < off {
            lemma_edge_triple_source(es, es.len() as int, j);
            let k = edge_at(es, j);
            lemma_edge_entry_at(es, k, es.len() as int);
            assert(edge_triples(es, k).len() == j);
            assert(tr[j] == et[j]);
            assert(et[j] == (es[k].0, es[k].1, (es[k].3 - es[k].2) as u64));
            assert(circ[k] == circ[k]);
            assert(es[k] == es[k]);
            assert(caps[j] == es[k].3 - es[k].2);
            assert(g[j] == circ[k].2 - es[k].2);
            assert(0 <= g[j] <= caps[j]);
        } else {
            let jj = j - off;
            lemma_vertex_triple_source(n, ds, es, n, jj);
            let v = vertex_at(n, ds, es, jj);
            lemma_vertex_entry_at(n, ds, es, v, n);
            assert(tr[j] == vt[jj]);
            assert(-i64::MAX <= adjusted(ds, es, v) <= i64::MAX);
        }
    }
    // The graph edges carry the circulation.
    assert forall|k: int|
        #![trigger circ[k]]
        0 <= k < es.len() implies circ[k].0 == es[k].0 && circ[k].1 == es[k].1 && circ[k].2 as int == es[k].2 + gflow(es, g, k) by {
        assert(es[k] == es[k]);
        if es[k].3 > es[k].2 {
            let p = edge_triples(es, k).len() as int;
            lemma_edge_entry_at(es, k, es.len() as int);
            let k2 = edge_at(es, p);
            assert(0 <= k2 < es.len() && es[k2].3 > es[k2].2 && edge_triples(es, k2).len() == p);
            if k2 < k {
                lemma_edge_pos_strict(es, k2, k);
            } else if k < k2 {
                lemma_edge_pos_strict(es, k, k2);
            }
        }
    }
    // The edges at the super-source and the super-sink are full.
    assert forall|w: int| 0 <= w < n && adjusted(ds, es, w) != 0 implies #[trigger] g[vpos(n, ds, es, off, w)] == (if adjusted(
        ds,
        es,
        w,
    ) < 0 {
        -adjusted(ds, es, w)
    } else {
        adjusted(ds, es, w)
    }) by {
        lemma_vertex_entry_at(n, ds, es, w, n);
        let jj = vertex_triples(n, ds, es, w).len() as int;
        let w2 = vertex_at(n, ds, es, jj);
        assert(0 <= w2 < n && adjusted(ds, es, w2) != 0 && vertex_triples(n, ds, es, w2).len() == jj);
        if w2 < w {
            lemma_vertex_pos_strict(n, ds, es, w2, w);
        } else if w < w2 {
            lemma_vertex_pos_strict(n, ds, es, w, w2);
        }
    }
    // Conservation.
    assert forall|w: int| 0 <= w < n + 2 && w != n && w != n + 1 implies #[trigger] net(ers, g, w) == 0 by {
        lemma_net_split(n, ds, es, orig, ers, ow, g, w);
        lemma_balance_is_gnet(es, circ, g, w, es.len() as int);
        lemma_vnet_vertex(n, ds, es, g, off, w, n);
        assert(flow_balance(circ, w, circ.len() as int) == ds[w]);
        if adjusted(ds, es, w) != 0 {
            assert(g[vpos(n, ds, es, off, w)] == (if adjusted(ds, es, w) < 0 {
                -adjusted(ds, es, w)
            } else {
                adjusted(ds, es, w)
            }));
        }
    }
    assert(is_flow(n + 2, ers, caps, g, n, n + 1));
    // The value.
    lemma_net_split(n, ds, es, orig, ers, ow, g, n);
    assert forall|w: int| 0 <= w < es.len() implies (#[trigger] es[w]).0 as int != n && es[w].1 as int != n by {}
    lemma_gnet_outside(es, g, n, es.len() as int);
    lemma_vnet_source(n, ds, es, g, off, n);
    assert forall|w: int| 0 <= w < n && adjusted(ds, es, w) < 0 implies #[trigger] g[vpos(n, ds, es, off, w)] == -adjusted(
        ds,
        es,
        w,
    ) by {
        assert(g[vpos(n, ds, es, off, w)] == (if adjusted(ds, es, w) < 0 {
            -adjusted(ds, es, w)
        } else {
            adjusted(ds, es, w)
        }));
    }
    lemma_src_full(n, ds, es, g, off, n);
}

/// The demands of a network that has a circulation add up to 0.
pub proof fn lemma_circulation_balances(ds: Seq<i64>, es: Seq<(usize, usize, u64, u64)>, circ: Seq<(usize, usize, i128)>)
    requires
        is_circulation(ds, es, circ),
        forall|k: int| #![trigger es[k]] 0 <= k < es.len() ==> es[k].0 < ds.len() && es[k].1 < ds.len(),
    ensures
        total_demand(ds, ds.len() as int) == 0,
{
    let n = ds.len() as int;
    assert forall|k: int| #![trigger circ[k]] 0 <= k < circ.len() implies circ[k].0 < n && circ[k].1 < n by {
        assert(es[k] == es[k]);
    }
    lemma_demands_are_balances(circ, ds, n);
    lemma_balance_sum_zero(circ, n, circ.len() as int);
}

/// No flow on the reduction sends more than the super-source must.
pub proof fn lemma_value_at_most_required(
    n: int,
    ds: Seq<i64>,
    es: Seq<(usize, usize, u64, u64)>,
    orig: Seq<Seq<Slot>>,
    ers: Seq<EdgeRef>,
    ow: Seq<Seq<(int, bool)>>,
    res: Seq<Seq<Slot>>,
)
    requires
        is_circulation_reduction(n, ds, es, orig, ers, ow),
        residual_ok(orig, res, ers),
    ensures
        net(ers, flow_of(orig, res, ers), n) <= required(ds, es, n),
{
    let tr = reduction_edges(n, ds, es);
    let et = edge_triples(es, es.len() as int);
    let vt = vertex_triples(n, ds, es, n);
    let off = et.len() as int;
    let f = flow_of(orig, res, ers);
    assert(tr == et + vt);
    lemma_flow_of_bounds(orig, res, ers);
    lemma_net_split(n, ds, es, orig, ers, ow, f, n);
    assert forall|w: int| 0 <= w < es.len() implies (#[trigger] es[w]).0 as int != n && es[w].1 as int != n by {}
    lemma_gnet_outside(es, f, n, es.len() as int);
    lemma_vnet_source(n, ds, es, f, off, n);
    assert forall|w: int| 0 <= w < n && adjusted(ds, es, w) < 0 implies 0 <= #[trigger] f[vpos(n, ds, es, off, w)]
        <= -adjusted(ds, es, w) by {
        lemma_vertex_entry_at(n, ds, es, w, n);
        let j = vertex_triples(n, ds, es, w).len() as int;
        assert(tr[off + j] == vt[j]);
        assert(ers[off + j] == ers[off + j]);
    }
    lemma_src_saturated(n, ds, es, f, off, n);
}

} // verus!
