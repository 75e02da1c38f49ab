//! The least total flow of a circulation.
//!
//! With every graph edge costing 1 per unit on the reduction and the edges at
//! the super-source and the super-sink costing nothing, the cost of a flow on
//! the reduction is what the graph edges carry above their lower bounds.  A
//! cheapest flow that sends all the super-source must send therefore gives a
//! circulation whose flows add up to the least total.
use vstd::prelude::*;

use crate::circulation::{edge_triples, lower_total, reduction_costs, vertex_triples};
use crate::cost_spec::{cost_limit, flow_cost};
use crate::feasibility::gflow;
use crate::flow_spec::{cap_total, Slot};
use crate::matching::pre_sum;
use crate::max_flow::slot_count;
use crate::{added_slots, built_slots};

verus! {

/// What the first `k` graph edges carry under `f`.
pub open spec fn gsum(es: Seq<(usize, usize, u64, u64)>, f: Seq<int>, k: int) -> int
    decreases k,
{
    if k <= 0 {
        0
    } else {
        gsum(es, f, k - 1) + gflow(es, f, k - 1)
    }
}

/// Sum of the flows of the first `m` edges.
pub open spec fn flow_sum(flows: Seq<(usize, usize, i128)>, m: int) -> int
    decreases m,
{
    if m <= 0 {
        0
    } else {
        flow_sum(flows, m - 1) + flows[m - 1].2
    }
}

/// What the first `k` graph edges carry is what the first entries of `f`,
/// one per graph edge with room above its lower bound, add up to.
pub proof fn lemma_gsum(es: Seq<(usize, usize, u64, u64)>, f: Seq<int>, k: int)
    requires
        0 <= k <= es.len(),
    ensures
        gsum(es, f, k) == pre_sum(f, edge_triples(es, k).len() as int),
    decreases k,
{
    if k > 0 {
        lemma_gsum(es, f, k - 1);
        let a = edge_triples(es, k - 1);
        let e = es[k - 1];
        if e.3 > e.2 {
            assert(edge_triples(es, k) == a + seq![(e.0, e.1, (e.3 - e.2) as u64)]);
        } else {
            assert(edge_triples(es, k) =~= a);
        }
    }
}

/// Under the reduction's costs, a flow costs what its first `ne` entries add up to.
pub proof fn lemma_cost_is_prefix(f: Seq<int>, ne: int, nv: int, m: int)
    requires
        0 <= ne,
        0 <= nv,
        0 <= m <= ne + nv,
    ensures
        flow_cost(f, reduction_costs(ne, nv), m) == pre_sum(f, if m < ne { m } else { ne }),
    decreases m,
{
    if m > 0 {
        lemma_cost_is_prefix(f, ne, nv, m - 1);
        let c = reduction_costs(ne, nv);
        if m - 1 < ne {
            assert(c[m - 1] == 1);
            assert(f[m - 1] * c[m - 1] == f[m - 1]);
        } else {
            assert(c[m - 1] == 0);
            assert(f[m - 1] * c[m - 1] == 0);
        }
    }
}

/// Flows that put on every graph edge its lower bound plus its `gflow` add
/// up to the lower bounds plus what the graph edges carry.
pub proof fn lemma_flow_sum_split(
    es: Seq<(usize, usize, u64, u64)>,
    c: Seq<(usize, usize, i128)>,
    g: Seq<int>,
    m: int,
)
    requires
        0 <= m <= es.len(),
        c.len() == es.len(),
        forall|k: int| #![trigger c[k]] 0 <= k < es.len() ==> c[k].2 as int == es[k].2 + gflow(es, g, k),
    ensures
        flow_sum(c, m) == lower_total(es, m) + gsum(es, g, m),
    decreases m,
{
    if m > 0 {
        lemma_flow_sum_split(es, c, g, m - 1);
        assert(c[m - 1].2 as int == es[m - 1].2 + gflow(es, g, m - 1));
    }
}

/// Entries between 0 and the capacities add up to at most the capacities.
pub proof fn lemma_pre_sum_le_caps(f: Seq<int>, caps: Seq<int>, m: int)
    requires
        0 <= m <= caps.len(),
        forall|j: int| 0 <= j < m ==> 0 <= #[trigger] f[j] <= caps[j],
    ensures
        0 <= pre_sum(f, m) <= cap_total(caps, m),
    decreases m,
{
    if m > 0 {
        lemma_pre_sum_le_caps(f, caps, m - 1);
        assert(0 <= f[m - 1] <= caps[m - 1]);
    }
}

/// Totals of nonnegative capacities grow with the number of edges.
pub proof fn lemma_cap_total_mono(caps: Seq<int>, m1: int, m2: int)
    requires
        0 <= m1 <= m2 <= caps.len(),
        forall|j: int| 0 <= j < caps.len() ==> #[trigger] caps[j] >= 0,
    ensures
        cap_total(caps, m1) <= cap_total(caps, m2),
    decreases m2,
{
    if m1 < m2 {
        lemma_cap_total_mono(caps, m1, m2 - 1);
        assert(caps[m2 - 1] >= 0);
    }
}

/// Under the reduction's costs, the cost bound is at most the total capacity.
pub proof fn lemma_cost_limit_le(caps: Seq<int>, ne: int, nv: int, m: int)
    requires
        0 <= ne,
        0 <= nv,
        0 <= m <= ne + nv,
        m <= caps.len(),
        forall|j: int| 0 <= j < caps.len() ==> #[trigger] caps[j] >= 0,
    ensures
        cost_limit(caps, reduction_costs(ne, nv), m) <= cap_total(caps, m),
    decreases m,
{
    if m > 0 {
        lemma_cost_limit_le(caps, ne, nv, m - 1);
        let c = reduction_costs(ne, nv);
        assert(caps[m - 1] >= 0);
        if m - 1 < ne {
            assert(c[m - 1] == 1);
            assert(caps[m - 1] * 1 == caps[m - 1]);
        } else {
            assert(c[m - 1] == 0);
            assert(caps[m - 1] * 0 == 0);
        }
    }
}

/// Adding an edge adds a slot to the list of each of its ends.
pub proof fn lemma_slot_count_added(a: Seq<Seq<Slot>>, from: usize, to: usize, cap: u64, m: int)
    requires
        (from as int) < a.len(),
        (to as int) < a.len(),
        0 <= m <= a.len(),
    ensures
        slot_count(added_slots(a, from, to, cap), m) == slot_count(a, m) + (if (from as int) < m { 1int } else { 0 })
            + (if (to as int) < m { 1int } else { 0 }),
    decreases m,
{
    if m > 0 {
        lemma_slot_count_added(a, from, to, cap, m - 1);
    }
}

/// A network built from the edges `tr` has two slots per edge.
pub proof fn lemma_slot_count_built(n: nat, tr: Seq<(usize, usize, u64)>)
    requires
        forall|k: int| 0 <= k < tr.len() ==> (#[trigger] tr[k].0 as int) < n && (tr[k].1 as int) < n,
    ensures
        built_slots(n, tr).len() == n,
        slot_count(built_slots(n, tr), n as int) == 2 * tr.len(),
    decreases tr.len(),
{
    if tr.len() == 0 {
        lemma_slot_count_empty(n, n as int);
    } else {
        let p = tr.drop_last();
        assert forall|k: int| 0 <= k < p.len() implies (#[trigger] p[k].0 as int) < n && (p[k].1 as int) < n by {
            assert(p[k] == tr[k]);
        }
        lemma_slot_count_built(n, p);
        let t = tr.last();
        assert(t == tr[tr.len() - 1]);
        lemma_slot_count_added(built_slots(n, p), t.0, t.1, t.2, n as int);
    }
}

proof fn lemma_slot_count_empty(n: nat, m: int)
    requires
        m <= n,
    ensures
        slot_count(Seq::new(n, |u: int| Seq::<Slot>::empty()), m) == 0,
    decreases m,
{
    if m > 0 {
        lemma_slot_count_empty(n, m - 1);
    }
}

/// At most one reduction edge per graph edge.
pub proof fn lemma_edge_triples_len(es: Seq<(usize, usize, u64, u64)>, k: int)
    requires
        0 <= k <= es.len(),
    ensures
        edge_triples(es, k).len() <= k,
    decreases k,
{
    if k > 0 {
        lemma_edge_triples_len(es, k - 1);
        let e = es[k - 1];
        if e.3 > e.2 {
            assert(edge_triples(es, k) == edge_triples(es, k - 1) + seq![(e.0, e.1, (e.3 - e.2) as u64)]);
        } else {
            assert(edge_triples(es, k) =~= edge_triples(es, k - 1));
        }
    }
}

/// At most one reduction edge per vertex.
pub proof fn lemma_vertex_triples_len(n: int, ds: Seq<i64>, es: Seq<(usize, usize, u64, u64)>, m: int)
    requires
        0 <= m,
    ensures
        vertex_triples(n, ds, es, m).len() <= m,
    decreases m,
{
    if m > 0 {
        lemma_vertex_triples_len(n, ds, es, m - 1);
    }
}

} // verus!
