//! Why the flow reduction yields a maximum matching.
//!
//! In the reduction, the source feeds every left vertex through an edge of
//! capacity 1, every right vertex drains into the sink the same way, and
//! every graph edge becomes an edge of capacity 1 from its left vertex to
//! its right vertex.  The net outflow of every vertex of the reduction has a
//! closed form over these three blocks of edges; conservation then gives the
//! matching its shape, and a flow built from any other matching bounds its
//! size by the maximum flow value.
use vstd::prelude::*;

use crate::bipartite::{lemma_matched_pairs_concat, lemma_no_left_matches, matched_pairs, reduction_edges};
use crate::flow_spec::{
    caps_of, is_flow, is_max_flow_value, edge_share, edge_slots_ok, edges_ok, flow_of, lemma_flow_of_bounds, net, net_upto, network_ok,
    residual_ok, row_flow_upto, row_net, rows_agree, EdgeRef, Slot,
};
use crate::max_flow::{flow_list, flow_row, ford_fulkerson_outcome};

verus! {

/// Sum of the first `m` entries of `f`.
pub open spec fn pre_sum(f: Seq<int>, m: int) -> int
    decreases m,
{
    if m <= 0 {
        0
    } else {
        pre_sum(f, m - 1) + f[m - 1]
    }
}

/// Sum of the entries `f[base + i]`, for the first `m` graph edges `i` that
/// leave left vertex `u`.
pub open spec fn out_sum(eg: Seq<(usize, usize)>, f: Seq<int>, base: int, u: int, m: int) -> int
    decreases m,
{
    if m <= 0 {
        0
    } else {
        out_sum(eg, f, base, u, m - 1) + (if eg[m - 1].0 as int == u { f[base + m - 1] } else { 0 })
    }
}

/// Sum of the entries `f[base + i]`, for the first `m` graph edges `i` that
/// enter right vertex `w`.
pub open spec fn in_sum(eg: Seq<(usize, usize)>, f: Seq<int>, base: int, w: int, m: int) -> int
    decreases m,
{
    if m <= 0 {
        0
    } else {
        in_sum(eg, f, base, w, m - 1) + (if eg[m - 1].1 as int == w { f[base + m - 1] } else { 0 })
    }
}

/// The edges `es` have the endpoints of the reduction of the graph with `l`
/// left and `r` right vertices and edges `eg`, all of them in range.
pub open spec fn reduction_ends(l: int, r: int, eg: Seq<(usize, usize)>, es: Seq<EdgeRef>) -> bool {
    let tr = reduction_edges(l, r, eg);
    &&& 0 < l
    &&& 0 < r
    &&& l + r + 2 <= usize::MAX
    &&& forall|i: int| 0 <= i < eg.len() ==> #[trigger] eg[i].0 < l && eg[i].1 < r
    &&& es.len() == tr.len()
    &&& forall|k: int| #![trigger es[k]] 0 <= k < es.len() ==> es[k].from == tr[k].0 && es[k].to == tr[k].1
}

pub(crate) proof fn lemma_tr_entry(l: int, r: int, eg: Seq<(usize, usize)>, k: int)
    requires
        0 < l,
        0 < r,
        l + r + 2 <= usize::MAX,
        forall|i: int| 0 <= i < eg.len() ==> #[trigger] eg[i].0 < l && eg[i].1 < r,
        0 <= k < l + r + eg.len(),
    ensures
        reduction_edges(l, r, eg).len() == l + r + eg.len(),
        k < l ==> reduction_edges(l, r, eg)[k] == ((l + r) as usize, k as usize, 1u64),
        l <= k < l + r ==> reduction_edges(l, r, eg)[k] == (k as usize, (l + r + 1) as usize, 1u64),
        l + r <= k ==> reduction_edges(l, r, eg)[k] == (eg[k - l - r].0, (l + eg[k - l - r].1) as usize, 1u64)
            && eg[k - l - r].0 < l && eg[k - l - r].1 < r,
{
    if l + r <= k {
        assert(eg[k - l - r].0 < l && eg[k - l - r].1 < r);
    }
}

/// The net outflow of the source is what the first `m` edges, up to the
/// `l`-th, carry out of it.
pub proof fn lemma_net_source(l: int, r: int, eg: Seq<(usize, usize)>, es: Seq<EdgeRef>, f: Seq<int>, m: int)
    requires
        reduction_ends(l, r, eg, es),
        0 <= m <= es.len(),
    ensures
        net_upto(es, f, l + r, m) == pre_sum(f, if m < l { m } else { l }),
    decreases m,
{
    if m > 0 {
        lemma_net_source(l, r, eg, es, f, m - 1);
        lemma_tr_entry(l, r, eg, m - 1);
        assert(es[m - 1] == es[m - 1]);
    }
}

/// The net outflow of left vertex `u`: what its graph edges carry out, less
/// what its edge from the source carries in.
pub proof fn lemma_net_left(l: int, r: int, eg: Seq<(usize, usize)>, es: Seq<EdgeRef>, f: Seq<int>, u: int, m: int)
    requires
        reduction_ends(l, r, eg, es),
        0 <= u < l,
        0 <= m <= es.len(),
    ensures
        net_upto(es, f, u, m) == out_sum(eg, f, l + r, u, if m < l + r { 0 } else { m - l - r }) - (if u < m {
            f[u]
        } else {
            0
        }),
    decreases m,
{
    if m > 0 {
        lemma_net_left(l, r, eg, es, f, u, m - 1);
        lemma_tr_entry(l, r, eg, m - 1);
        assert(es[m - 1] == es[m - 1]);
    }
}

/// The net outflow of right vertex `w` (vertex `l + w`): what its edge to the
/// sink carries out, less what its graph edges carry in.
pub proof fn lemma_net_right(l: int, r: int, eg: Seq<(usize, usize)>, es: Seq<EdgeRef>, f: Seq<int>, w: int, m: int)
    requires
        reduction_ends(l, r, eg, es),
        0 <= w < r,
        0 <= m <= es.len(),
    ensures
        net_upto(es, f, l + w, m) == (if l + w < m { f[l + w] } else { 0 }) - in_sum(
            eg,
            f,
            l + r,
            w,
            if m < l + r { 0 } else { m - l - r },
        ),
    decreases m,
{
    if m > 0 {
        lemma_net_right(l, r, eg, es, f, w, m - 1);
        lemma_tr_entry(l, r, eg, m - 1);
        assert(es[m - 1] == es[m - 1]);
    }
}

/// The network `orig`, with edges `es` and owners `ow`, is the reduction of
/// the graph with `l` left and `r` right vertices and edges `eg`.
pub open spec fn is_reduction(
    l: int,
    r: int,
    eg: Seq<(usize, usize)>,
    orig: Seq<Seq<Slot>>,
    es: Seq<EdgeRef>,
    ow: Seq<Seq<(int, bool)>>,
) -> bool {
    let n = l + r + 2;
    let tr = reduction_edges(l, r, eg);
    &&& reduction_ends(l, r, eg, es)
    &&& network_ok(n, orig, es, ow)
    &&& orig.len() == n
    &&& forall|k: int|
        #![trigger es[k]]
        0 <= k < es.len() ==> 0 <= es[k].fi < orig[es[k].from].len() && orig[es[k].from][es[k].fi].1 == tr[k].2
}

/// Pairs from `u` that are graph edges carrying flow stay so when one more is added.
proof fn lemma_pairs_push(
    pp: Seq<(usize, usize)>,
    x: (usize, usize),
    u: usize,
    eg: Seq<(usize, usize)>,
    f: Seq<int>,
    l: int,
    r: int,
)
    requires
        pairs_from(pp, u, eg, f, l, r),
        x.0 == u,
        pair_edge(eg, f, l, r, x),
    ensures
        pairs_from(pp.push(x), u, eg, f, l, r),
{
    assert forall|j: int| 0 <= j < pp.push(x).len() implies #[trigger] pp.push(x)[j].0 == u && pair_edge(eg, f, l, r, pp.push(x)[j]) by {
        if j < pp.len() {
            assert(pp.push(x)[j] == pp[j]);
            assert(pp[j].0 == u && pair_edge(eg, f, l, r, pp[j]));
        } else {
            assert(pp.push(x)[j] == x);
        }
    }
}

/// The pair `p` is a graph edge that carries a unit of flow.
pub open spec fn pair_edge(eg: Seq<(usize, usize)>, f: Seq<int>, l: int, r: int, p: (usize, usize)) -> bool {
    exists|i: int| 0 <= i < eg.len() && #[trigger] eg[i] == p && f[l + r + i] == 1
}

/// Slot `x` of left vertex `u` is the forward slot of a graph edge, whose
/// flow is what the slot has lost.
pub open spec fn slot_edge(
    orow: Seq<Slot>,
    rrow: Seq<Slot>,
    u: usize,
    l: int,
    r: int,
    eg: Seq<(usize, usize)>,
    f: Seq<int>,
    x: int,
) -> bool {
    exists|i: int|
        0 <= i < eg.len() && #[trigger] eg[i] == (u, (orow[x].0 - l) as usize) && f[l + r + i] == orow[x].1 - rrow[x].1
}

/// The facts about the list of left vertex `u` that the pairs rest on: `b`
/// is the reverse slot of the source's edge, every other slot the forward
/// slot of a graph edge of capacity 1 to its own right vertex.
pub open spec fn left_row_ok(
    orow: Seq<Slot>,
    rrow: Seq<Slot>,
    u: usize,
    l: int,
    r: int,
    b: int,
    eg: Seq<(usize, usize)>,
    f: Seq<int>,
) -> bool {
    &&& (u as int) < l
    &&& 0 <= b < orow.len()
    &&& rrow.len() == orow.len()
    &&& forall|x: int| 0 <= x < orow.len() ==> #[trigger] rrow[x].0 == orow[x].0 && rrow[x].1 <= 1
    &&& orow[b].0 == l + r
    &&& orow[b].1 == 0
    &&& forall|x: int| 0 <= x < orow.len() && x != b ==> l <= #[trigger] orow[x].0 < l + r && orow[x].1 == 1
    &&& forall|x: int| 0 <= x < orow.len() && x != b ==> #[trigger] slot_edge(orow, rrow, u, l, r, eg, f, x)
}

/// The entry reported for slot `j` of a left row, and whether it is a pair.
proof fn lemma_left_row_entry(
    orow: Seq<Slot>,
    rrow: Seq<Slot>,
    u: usize,
    l: int,
    r: int,
    b: int,
    eg: Seq<(usize, usize)>,
    f: Seq<int>,
    j: int,
)
    requires
        left_row_ok(orow, rrow, u, l, r, b, eg, f),
        0 <= j < orow.len(),
    ensures
        ({
            let prev = flow_row(orow, rrow, u, j);
            let cur = flow_row(orow, rrow, u, j + 1);
            let x = (u, (orow[j].0 - l) as usize);
            &&& j == b ==> matched_pairs(cur, l, r) == matched_pairs(prev, l, r)
            &&& j != b && rrow[j].1 == 1 ==> matched_pairs(cur, l, r) == matched_pairs(prev, l, r)
            &&& j != b && rrow[j].1 == 0 ==> matched_pairs(cur, l, r) == matched_pairs(prev, l, r).push(x)
                && pair_edge(eg, f, l, r, x)
            &&& j != b ==> rrow[j].1 == 0 || rrow[j].1 == 1
            &&& row_flow_upto(orow, rrow, j + 1) == row_flow_upto(orow, rrow, j) + (orow[j].1 - rrow[j].1)
        }),
{
    let t = orow[j].0;
    assert(rrow[j].0 == t);
    let prev = flow_row(orow, rrow, u, j);
    let fj = orow[j].1 - rrow[j].1;
    if fj != 0 {
        let e = (u, t, fj as i64);
        assert(flow_row(orow, rrow, u, j + 1) == prev.push(e));
        assert(prev.push(e).drop_last() =~= prev);
        assert(prev.push(e).last() == e);
        if j != b {
            assert(slot_edge(orow, rrow, u, l, r, eg, f, j));
            let i = choose|i: int|
                0 <= i < eg.len() && #[trigger] eg[i] == (u, (orow[j].0 - l) as usize) && f[l + r + i] == orow[j].1
                    - rrow[j].1;
            assert(eg[i] == (u, (t - l) as usize));
        }
    } else {
        assert(flow_row(orow, rrow, u, j + 1) == prev);
    }
}

/// The pairs read off the first `m` slots of a left row number what those
/// slots have lost plus what the reverse slot holds.
proof fn lemma_left_row_count(
    orow: Seq<Slot>,
    rrow: Seq<Slot>,
    u: usize,
    l: int,
    r: int,
    b: int,
    eg: Seq<(usize, usize)>,
    f: Seq<int>,
    m: int,
)
    requires
        left_row_ok(orow, rrow, u, l, r, b, eg, f),
        0 <= m <= orow.len(),
    ensures
        matched_pairs(flow_row(orow, rrow, u, m), l, r).len() == row_flow_upto(orow, rrow, m) + (if b < m {
            rrow[b].1 as int
        } else {
            0
        }),
    decreases m,
{
    if m > 0 {
        lemma_left_row_count(orow, rrow, u, l, r, b, eg, f, m - 1);
        lemma_left_row_entry(orow, rrow, u, l, r, b, eg, f, m - 1);
    }
}

/// Every pair read off the first `m` slots of a left row `u` starts at `u`
/// and is a graph edge carrying a unit of flow.
proof fn lemma_left_row_edges(
    orow: Seq<Slot>,
    rrow: Seq<Slot>,
    u: usize,
    l: int,
    r: int,
    b: int,
    eg: Seq<(usize, usize)>,
    f: Seq<int>,
    m: int,
)
    requires
        left_row_ok(orow, rrow, u, l, r, b, eg, f),
        0 <= m <= orow.len(),
    ensures
        pairs_from(matched_pairs(flow_row(orow, rrow, u, m), l, r), u, eg, f, l, r),
    decreases m,
{
    if m > 0 {
        lemma_left_row_edges(orow, rrow, u, l, r, b, eg, f, m - 1);
        lemma_left_row_entry(orow, rrow, u, l, r, b, eg, f, m - 1);
        let pp = matched_pairs(flow_row(orow, rrow, u, m - 1), l, r);
        let x = (u, (orow[m - 1].0 - l) as usize);
        if m - 1 != b && rrow[m - 1].1 == 0 {
            lemma_pairs_push(pp, x, u, eg, f, l, r);
        }
    }
}

/// Every pair of `pp` starts at `u` and is a graph edge carrying a unit of flow.
pub open spec fn pairs_from(pp: Seq<(usize, usize)>, u: usize, eg: Seq<(usize, usize)>, f: Seq<int>, l: int, r: int) -> bool {
    forall|j: int| #![trigger pp[j]] 0 <= j < pp.len() ==> pp[j].0 == u && pair_edge(eg, f, l, r, pp[j])
}

/// The pairs read off the list of left vertex `u` of a conserved flow on the
/// reduction of a graph: as many as the units the
/// source sends to `u`, each a graph edge from `u` carrying a unit.
pub proof fn lemma_left_row_exact(
    l: int,
    r: int,
    eg: Seq<(usize, usize)>,
    orig: Seq<Seq<Slot>>,
    es: Seq<EdgeRef>,
    ow: Seq<Seq<(int, bool)>>,
    res: Seq<Seq<Slot>>,
    u: int,
)
    requires
        is_reduction(l, r, eg, orig, es, ow),
        residual_ok(orig, res, es),
        rows_agree(l + r + 2, orig, res, es),
        net(es, flow_of(orig, res, es), u) == 0,
        0 <= u < l,
    ensures
        ({
            let f = flow_of(orig, res, es);
            let rp = matched_pairs(flow_row(orig[u], res[u], u as usize, orig[u].len() as int), l, r);
            &&& rp.len() == f[u]
            &&& pairs_from(rp, u as usize, eg, f, l, r)
        }),
{
    let n = l + r + 2;
    let tr = reduction_edges(l, r, eg);
    let f = flow_of(orig, res, es);
    let orow = orig[u];
    let rrow = res[u];
    lemma_tr_entry(l, r, eg, u);
    let eu = es[u];
    assert(edge_slots_ok(n, orig, eu));
    let b = eu.ti;
    assert(eu.to == u && eu.from == l + r);
    assert(orow[b].0 == l + r);
    assert(orow[b].1 == 0);
    assert(rrow.len() == orow.len());
    lemma_flow_of_bounds(orig, res, es);
    assert forall|x: int| 0 <= x < orow.len() implies #[trigger] rrow[x].0 == orow[x].0 && rrow[x].1 <= 1 && (x
        != b ==> l <= orow[x].0 < l + r && orow[x].1 == 1 && slot_edge(orow, rrow, u as usize, l, r, eg, f, x)) by {
        let (k, fwd) = ow[u][x];
        assert(0 <= k < es.len());
        assert(es[k] == es[k]);
        assert(edge_slots_ok(n, orig, es[k]));
        lemma_tr_entry(l, r, eg, k);
        assert(res[es[k].from][es[k].fi].1 + res[es[k].to][es[k].ti].1 == orig[es[k].from][es[k].fi].1);
        if fwd {
            assert(es[k].from == u && es[k].fi == x);
            assert(k >= l + r);
            let i = k - l - r;
            assert(eg[i] == (u as usize, (orow[x].0 - l) as usize));
            assert(f[l + r + i] == orow[x].1 - rrow[x].1);
            assert(slot_edge(orow, rrow, u as usize, l, r, eg, f, x));
        } else {
            assert(es[k].to == u && es[k].ti == x);
            assert(k < l);
            assert(k == u);
        }
    }
    assert forall|x: int| 0 <= x < orow.len() && x != b implies l <= #[trigger] orow[x].0 < l + r && orow[x].1 == 1 by {
        assert(rrow[x].0 == orow[x].0);
    }
    assert forall|x: int| 0 <= x < orow.len() && x != b implies #[trigger] slot_edge(orow, rrow, u as usize, l, r, eg, f, x) by {
        assert(rrow[x].0 == orow[x].0);
    }
    assert(left_row_ok(orow, rrow, u as usize, l, r, b, eg, f));
    lemma_left_row_count(orow, rrow, u as usize, l, r, b, eg, f, orow.len() as int);
    lemma_left_row_edges(orow, rrow, u as usize, l, r, b, eg, f, orow.len() as int);
    assert(row_net(orig, res, u) == net(es, f, u));
    assert(f[u] == res[eu.to][eu.ti].1);
}

/// `m` is a matching of the graph with edges `eg` and no matching of it is larger.
pub open spec fn is_maximum_matching(eg: Seq<(usize, usize)>, m: Seq<(usize, usize)>) -> bool {
    &&& is_matching(eg, m)
    &&& forall|o: Seq<(usize, usize)>| #[trigger] is_matching(eg, o) ==> o.len() <= m.len()
}

/// `m` is a matching of the graph with edges `eg`: every pair is an edge, and
/// no two pairs share a left vertex or a right vertex.
pub open spec fn is_matching(eg: Seq<(usize, usize)>, m: Seq<(usize, usize)>) -> bool {
    &&& forall|j: int| 0 <= j < m.len() ==> eg.contains(#[trigger] m[j])
    &&& forall|i: int, j: int| 0 <= i < j < m.len() ==> (#[trigger] m[i]).0 != (#[trigger] m[j]).0
    &&& forall|i: int, j: int| 0 <= i < j < m.len() ==> (#[trigger] m[i]).1 != (#[trigger] m[j]).1
}

proof fn lemma_in_sum_two(eg: Seq<(usize, usize)>, f: Seq<int>, base: int, w: int, m: int, i1: int, i2: int)
    requires
        forall|i: int| 0 <= i < m ==> #[trigger] f[base + i] >= 0,
        0 <= i1 < eg.len(),
        0 <= i2 < eg.len(),
        i1 != i2,
        eg[i1].1 as int == w,
        eg[i2].1 as int == w,
        m <= eg.len(),
    ensures
        in_sum(eg, f, base, w, m) >= (if i1 < m { f[base + i1] } else { 0 }) + (if i2 < m { f[base + i2] } else { 0 }),
    decreases m,
{
    if m > 0 {
        lemma_in_sum_two(eg, f, base, w, m - 1, i1, i2);
        assert(f[base + (m - 1)] >= 0);
    }
}

/// The pairs read off the lists of the first `m` vertices of a conserved
/// flow on the reduction of a graph: as many as the
/// units the source sends to the first of them, all graph edges carrying a
/// unit, from distinct left vertices below `m`, to distinct right vertices.
proof fn lemma_pairs_upto(
    l: int,
    r: int,
    eg: Seq<(usize, usize)>,
    orig: Seq<Seq<Slot>>,
    es: Seq<EdgeRef>,
    ow: Seq<Seq<(int, bool)>>,
    res: Seq<Seq<Slot>>,
    m: int,
)
    requires
        is_reduction(l, r, eg, orig, es, ow),
        residual_ok(orig, res, es),
        rows_agree(l + r + 2, orig, res, es),
        forall|w: int|
            0 <= w < l + r ==> #[trigger] net(es, flow_of(orig, res, es), w) == 0,
        0 <= m <= l + r + 2,
    ensures
        ({
            let f = flow_of(orig, res, es);
            let mp = matched_pairs(flow_list(orig, res, m), l, r);
            &&& mp.len() == pre_sum(f, if m < l { m } else { l })
            &&& forall|j: int| 0 <= j < mp.len() ==> (#[trigger] mp[j]).0 < m && pair_edge(eg, f, l, r, mp[j])
            &&& forall|i: int, j: int| 0 <= i < j < mp.len() ==> (#[trigger] mp[i]).0 != (#[trigger] mp[j]).0
            &&& forall|i: int, j: int| 0 <= i < j < mp.len() ==> (#[trigger] mp[i]).1 != (#[trigger] mp[j]).1
        }),
    decreases m,
{
    let f = flow_of(orig, res, es);
    if m > 0 {
        lemma_pairs_upto(l, r, eg, orig, es, ow, res, m - 1);
        let u = m - 1;
        let prev = matched_pairs(flow_list(orig, res, u), l, r);
        let row = flow_row(orig[u], res[u], u as usize, orig[u].len() as int);
        let rp = matched_pairs(row, l, r);
        lemma_matched_pairs_concat(flow_list(orig, res, u), row, l, r);
        let mp = matched_pairs(flow_list(orig, res, m), l, r);
        assert(mp == prev + rp);
        if u >= l {
            lemma_no_left_matches(orig[u], res[u], u as usize, orig[u].len() as int, l, r);
            assert(mp =~= prev);
        } else {
            assert(net(es, f, u) == 0);
            lemma_left_row_exact(l, r, eg, orig, es, ow, res, u);
            lemma_flow_of_bounds(orig, res, es);
            lemma_tr_entry(l, r, eg, u);
            assert(es[u] == es[u]);
            assert(f[u] <= 1);
            assert(rp.len() <= 1);
            if rp.len() == 1 {
                let x = rp[0];
                assert(pairs_from(rp, u as usize, eg, f, l, r));
                assert(x.0 == u && pair_edge(eg, f, l, r, x));
                assert forall|j: int| 0 <= j < mp.len() implies (#[trigger] mp[j]).0 < m && pair_edge(eg, f, l, r, mp[j]) by {
                    if j < prev.len() {
                        assert(mp[j] == prev[j]);
                    } else {
                        assert(mp[j] == x);
                    }
                }
                assert forall|i: int, j: int| 0 <= i < j < mp.len() implies (#[trigger] mp[i]).0 != (#[trigger] mp[j]).0 by {
                    if j < prev.len() {
                        assert(mp[i] == prev[i] && mp[j] == prev[j]);
                    } else {
                        assert(mp[i] == prev[i] && mp[j] == x);
                    }
                }
                assert forall|i: int, j: int| 0 <= i < j < mp.len() implies (#[trigger] mp[i]).1 != (#[trigger] mp[j]).1 by {
                    if j < prev.len() {
                        assert(mp[i] == prev[i] && mp[j] == prev[j]);
                    } else {
                        assert(mp[i] == prev[i] && mp[j] == x);
                        let y = prev[i];
                        assert(y.0 < u && pair_edge(eg, f, l, r, y));
                        if y.1 == x.1 {
                            let i1 = choose|i1: int| 0 <= i1 < eg.len() && #[trigger] eg[i1] == x && f[l + r + i1] == 1;
                            let i2 = choose|i2: int| 0 <= i2 < eg.len() && #[trigger] eg[i2] == y && f[l + r + i2] == 1;
                            let w = x.1 as int;
                            assert(eg[i1].1 < r);
                            assert forall|i: int| 0 <= i < eg.len() implies #[trigger] f[l + r + i] >= 0 by {
                                lemma_tr_entry(l, r, eg, l + r + i);
                                assert(es[l + r + i] == es[l + r + i]);
                            }
                            lemma_in_sum_two(eg, f, l + r, w, eg.len() as int, i1, i2);
                            lemma_net_right(l, r, eg, es, f, w, es.len() as int);
                            assert(net(es, f, l + w) == 0);
                            lemma_tr_entry(l, r, eg, l + w);
                            assert(es[l + w] == es[l + w]);
                            assert(f[l + w] <= 1);
                        }
                    }
                }
            } else {
                assert(mp =~= prev);
            }
        }
    }
}

proof fn lemma_pre_sum_bound(f: Seq<int>, m: int)
    requires
        forall|k: int| 0 <= k < m ==> 0 <= #[trigger] f[k] <= 1,
    ensures
        0 <= pre_sum(f, m) <= if m < 0 { 0 } else { m },
    decreases m,
{
    if m > 0 {
        lemma_pre_sum_bound(f, m - 1);
        assert(0 <= f[m - 1] <= 1);
    }
}

/// The pairs that Ford-Fulkerson's flow on the reduction of a graph yields
/// form a matching, as large as the flow's value.
pub proof fn lemma_matching_shape(
    l: int,
    r: int,
    eg: Seq<(usize, usize)>,
    orig: Seq<Seq<Slot>>,
    es: Seq<EdgeRef>,
    ow: Seq<Seq<(int, bool)>>,
    res: Seq<Seq<Slot>>,
    v: int,
    flows: Seq<(usize, usize, i64)>,
)
    requires
        is_reduction(l, r, eg, orig, es, ow),
        ford_fulkerson_outcome(l + r + 2, orig, es, (l + r) as usize, (l + r + 1) as usize, v, flows, res),
    ensures
        is_matching(eg, matched_pairs(flows, l, r)),
        matched_pairs(flows, l, r).len() == v,
        v <= l,
{
    let n = l + r + 2;
    let f = flow_of(orig, res, es);
    assert forall|w: int| 0 <= w < l + r implies #[trigger] net(es, f, w) == 0 by {}
    lemma_pairs_upto(l, r, eg, orig, es, ow, res, n);
    let mp = matched_pairs(flows, l, r);
    assert(flows == flow_list(orig, res, n));
    assert forall|j: int| 0 <= j < mp.len() implies eg.contains(#[trigger] mp[j]) by {
        assert(pair_edge(eg, f, l, r, mp[j]));
        let i = choose|i: int| 0 <= i < eg.len() && #[trigger] eg[i] == mp[j] && f[l + r + i] == 1;
        assert(eg[i] == mp[j]);
    }
    lemma_net_source(l, r, eg, es, f, es.len() as int);
    lemma_flow_of_bounds(orig, res, es);
    assert forall|k: int| 0 <= k < l implies 0 <= #[trigger] f[k] <= 1 by {
        lemma_tr_entry(l, r, eg, k);
        assert(es[k] == es[k]);
    }
    lemma_pre_sum_bound(f, l);
}

/// Count of the vertices below `m` that start a pair of `o`.
pub open spec fn left_count(o: Seq<(usize, usize)>, m: int) -> int
    decreases m,
{
    if m <= 0 {
        0
    } else {
        left_count(o, m - 1) + (if exists|j: int| 0 <= j < o.len() && o[j].0 as int == m - 1 { 1int } else { 0 })
    }
}

proof fn lemma_left_count_push(o: Seq<(usize, usize)>, p: (usize, usize), m: int)
    requires
        forall|j: int| 0 <= j < o.len() ==> (#[trigger] o[j]).0 != p.0,
    ensures
        left_count(o.push(p), m) == left_count(o, m) + (if 0 <= p.0 < m { 1int } else { 0 }),
    decreases m,
{
    if m > 0 {
        lemma_left_count_push(o, p, m - 1);
        let u = m - 1;
        let o2 = o.push(p);
        if exists|j: int| 0 <= j < o.len() && o[j].0 as int == u {
            let j = choose|j: int| 0 <= j < o.len() && o[j].0 as int == u;
            assert(o2[j] == o[j]);
        }
        if exists|j: int| 0 <= j < o2.len() && o2[j].0 as int == u {
            let j = choose|j: int| 0 <= j < o2.len() && o2[j].0 as int == u;
            if j < o.len() {
                assert(o2[j] == o[j]);
            } else {
                assert(o2[j] == p);
            }
        }
        if p.0 as int == u {
            assert(o2[o.len() as int] == p);
            if exists|j: int| 0 <= j < o.len() && o[j].0 as int == u {
                let j = choose|j: int| 0 <= j < o.len() && o[j].0 as int == u;
                assert(o[j].0 != p.0);
            }
        }
    }
}

/// Pairs with distinct left vertices below `l` start at exactly as many vertices.
proof fn lemma_left_count(o: Seq<(usize, usize)>, l: int)
    requires
        forall|j: int| 0 <= j < o.len() ==> (#[trigger] o[j]).0 < l,
        forall|i: int, j: int| 0 <= i < j < o.len() ==> (#[trigger] o[i]).0 != (#[trigger] o[j]).0,
    ensures
        left_count(o, l) == o.len(),
    decreases o.len(),
{
    if o.len() == 0 {
        lemma_left_count_empty(o, l);
    } else {
        let o1 = o.drop_last();
        let p = o.last();
        assert forall|j: int| 0 <= j < o1.len() implies (#[trigger] o1[j]).0 < l by {
            assert(o1[j] == o[j]);
        }
        assert forall|i: int, j: int| 0 <= i < j < o1.len() implies (#[trigger] o1[i]).0 != (#[trigger] o1[j]).0 by {
            assert(o1[i] == o[i] && o1[j] == o[j]);
        }
        lemma_left_count(o1, l);
        assert forall|j: int| 0 <= j < o1.len() implies (#[trigger] o1[j]).0 != p.0 by {
            assert(o1[j] == o[j]);
            assert(p == o[o.len() - 1]);
        }
        lemma_left_count_push(o1, p, l);
        assert(o1.push(p) =~= o);
        assert(p.0 < l) by {
            assert(o[o.len() - 1] == p);
        }
    }
}

proof fn lemma_left_count_empty(o: Seq<(usize, usize)>, m: int)
    requires
        o.len() == 0,
    ensures
        left_count(o, m) == 0,
    decreases m,
{
    if m > 0 {
        lemma_left_count_empty(o, m - 1);
    }
}

proof fn lemma_pre_sum_ext(f: Seq<int>, o: Seq<(usize, usize)>, m: int)
    requires
        forall|u: int|
            0 <= u < m ==> #[trigger] f[u] == (if exists|j: int| 0 <= j < o.len() && o[j].0 as int == u { 1int } else { 0 }),
    ensures
        pre_sum(f, m) == left_count(o, m),
    decreases m,
{
    if m > 0 {
        lemma_pre_sum_ext(f, o, m - 1);
        assert(f[m - 1] == (if exists|j: int| 0 <= j < o.len() && o[j].0 as int == m - 1 { 1int } else { 0 }));
    }
}

/// The entries `f[base + i]` of the graph edges leaving `w`: when only edge
/// `i0` among them may carry something, that is their sum.
proof fn lemma_out_sum_single(eg: Seq<(usize, usize)>, f: Seq<int>, base: int, w: int, m: int, i0: int)
    requires
        forall|i: int| 0 <= i < m && eg[i].0 as int == w && #[trigger] f[base + i] != 0 ==> i == i0,
    ensures
        out_sum(eg, f, base, w, m) == (if 0 <= i0 < m && eg[i0].0 as int == w { f[base + i0] } else { 0 }),
    decreases m,
{
    if m > 0 {
        lemma_out_sum_single(eg, f, base, w, m - 1, i0);
        if eg[m - 1].0 as int == w && f[base + (m - 1)] != 0 {
            assert(m - 1 == i0);
        }
    }
}

/// The same for the graph edges entering `w`.
proof fn lemma_in_sum_single(eg: Seq<(usize, usize)>, f: Seq<int>, base: int, w: int, m: int, i0: int)
    requires
        forall|i: int| 0 <= i < m && eg[i].1 as int == w && #[trigger] f[base + i] != 0 ==> i == i0,
    ensures
        in_sum(eg, f, base, w, m) == (if 0 <= i0 < m && eg[i0].1 as int == w { f[base + i0] } else { 0 }),
    decreases m,
{
    if m > 0 {
        lemma_in_sum_single(eg, f, base, w, m - 1, i0);
        if eg[m - 1].1 as int == w && f[base + (m - 1)] != 0 {
            assert(m - 1 == i0);
        }
    }
}

/// The index of the first occurrence of `e` in `eg` from `i` on, or `eg.len()`.
pub open spec fn first_from(eg: Seq<(usize, usize)>, e: (usize, usize), i: int) -> int
    decreases eg.len() - i,
{
    if i >= eg.len() || i < 0 {
        eg.len() as int
    } else if eg[i] == e {
        i
    } else {
        first_from(eg, e, i + 1)
    }
}

proof fn lemma_first_from(eg: Seq<(usize, usize)>, e: (usize, usize), i: int, k: int)
    requires
        0 <= i <= k < eg.len(),
        eg[k] == e,
    ensures
        i <= first_from(eg, e, i) <= k,
        eg[first_from(eg, e, i)] == e,
    decreases k - i,
{
    if eg[i] != e {
        lemma_first_from(eg, e, i + 1, k);
    }
}

/// The flow on the reduction that a matching `o` defines: a unit from the
/// source to every matched left vertex, along the first copy of every
/// matched edge, and from every matched right vertex to the sink.
pub open spec fn matching_flow(l: int, r: int, eg: Seq<(usize, usize)>, o: Seq<(usize, usize)>) -> Seq<int> {
    Seq::new(
        (l + r + eg.len()) as nat,
        |k: int|
            if k < l {
                if exists|j: int| 0 <= j < o.len() && o[j].0 as int == k { 1int } else { 0 }
            } else if k < l + r {
                if exists|j: int| 0 <= j < o.len() && o[j].1 as int == k - l { 1int } else { 0 }
            } else {
                if o.contains(eg[k - l - r]) && first_from(eg, eg[k - l - r], 0) == k - l - r { 1int } else { 0 }
            },
    )
}

/// No matching is larger than the maximum flow value of the reduction.
pub proof fn lemma_matching_at_most_max_flow(
    l: int,
    r: int,
    eg: Seq<(usize, usize)>,
    orig: Seq<Seq<Slot>>,
    es: Seq<EdgeRef>,
    ow: Seq<Seq<(int, bool)>>,
    v: int,
    o: Seq<(usize, usize)>,
)
    requires
        is_reduction(l, r, eg, orig, es, ow),
        is_matching(eg, o),
        is_max_flow_value(l + r + 2, es, caps_of(orig, es), l + r, l + r + 1, v),
    ensures
        o.len() <= v,
{
    let n = l + r + 2;
    let s = l + r;
    let t = l + r + 1;
    let g = matching_flow(l, r, eg, o);
    let caps = caps_of(orig, es);
    let ne = eg.len() as int;
    assert forall|j: int| 0 <= j < o.len() implies (#[trigger] o[j]).0 < l && o[j].1 < r by {
        assert(eg.contains(o[j]));
        let i = choose|i: int| 0 <= i < eg.len() && eg[i] == o[j];
        assert(eg[i].0 < l && eg[i].1 < r);
    }
    // Capacities.
    assert forall|k: int| #![trigger g[k]] 0 <= k < es.len() implies 0 <= g[k] <= caps[k] by {
        lemma_tr_entry(l, r, eg, k);
        assert(es[k] == es[k]);
    }
    // Conservation.
    assert forall|w: int| 0 <= w < n && w != s && w != t implies #[trigger] net(es, g, w) == 0 by {
        if w < l {
            lemma_net_left(l, r, eg, es, g, w, es.len() as int);
            if exists|j: int| 0 <= j < o.len() && o[j].0 as int == w {
                let j = choose|j: int| 0 <= j < o.len() && o[j].0 as int == w;
                assert(eg.contains(o[j]));
                let ik = choose|i: int| 0 <= i < eg.len() && eg[i] == o[j];
                lemma_first_from(eg, o[j], 0, ik);
                let i0 = first_from(eg, o[j], 0);
                assert forall|i: int| 0 <= i < ne && eg[i].0 as int == w && #[trigger] g[l + r + i] != 0 implies i == i0 by {
                    assert(o.contains(eg[l + r + i - l - r]));
                    let j2 = choose|j2: int| 0 <= j2 < o.len() && o[j2] == eg[i];
                    if j2 != j {
                        if j2 < j {
                            assert(o[j2].0 != o[j].0);
                        } else {
                            assert(o[j].0 != o[j2].0);
                        }
                    }
                    assert(first_from(eg, eg[l + r + i - l - r], 0) == l + r + i - l - r);
                }
                lemma_out_sum_single(eg, g, l + r, w, ne, i0);
                assert(o.contains(eg[i0])) by {
                    assert(o[j] == eg[i0]);
                }
                assert(eg[l + r + i0 - l - r] == eg[i0]);
                assert(g[l + r + i0] == 1);
            } else {
                assert forall|i: int| 0 <= i < ne && eg[i].0 as int == w && #[trigger] g[l + r + i] != 0 implies i == -1 by {
                    assert(o.contains(eg[l + r + i - l - r]));
                    let j2 = choose|j2: int| 0 <= j2 < o.len() && o[j2] == eg[i];
                    assert(o[j2].0 as int == w);
                }
                lemma_out_sum_single(eg, g, l + r, w, ne, -1);
            }
        } else {
            let x = w - l;
            lemma_net_right(l, r, eg, es, g, x, es.len() as int);
            if exists|j: int| 0 <= j < o.len() && o[j].1 as int == x {
                let j = choose|j: int| 0 <= j < o.len() && o[j].1 as int == x;
                assert(eg.contains(o[j]));
                let ik = choose|i: int| 0 <= i < eg.len() && eg[i] == o[j];
                lemma_first_from(eg, o[j], 0, ik);
                let i0 = first_from(eg, o[j], 0);
                assert forall|i: int| 0 <= i < ne && eg[i].1 as int == x && #[trigger] g[l + r + i] != 0 implies i == i0 by {
                    assert(o.contains(eg[l + r + i - l - r]));
                    let j2 = choose|j2: int| 0 <= j2 < o.len() && o[j2] == eg[i];
                    if j2 != j {
                        if j2 < j {
                            assert(o[j2].1 != o[j].1);
                        } else {
                            assert(o[j].1 != o[j2].1);
                        }
                    }
                    assert(first_from(eg, eg[l + r + i - l - r], 0) == l + r + i - l - r);
                }
                lemma_in_sum_single(eg, g, l + r, x, ne, i0);
                assert(o.contains(eg[i0])) by {
                    assert(o[j] == eg[i0]);
                }
                assert(eg[l + r + i0 - l - r] == eg[i0]);
                assert(g[l + r + i0] == 1);
                assert(g[l + x] == 1);
            } else {
                assert forall|i: int| 0 <= i < ne && eg[i].1 as int == x && #[trigger] g[l + r + i] != 0 implies i == -1 by {
                    assert(o.contains(eg[l + r + i - l - r]));
                    let j2 = choose|j2: int| 0 <= j2 < o.len() && o[j2] == eg[i];
                    assert(o[j2].1 as int == x);
                }
                lemma_in_sum_single(eg, g, l + r, x, ne, -1);
                assert(g[l + x] == 0);
            }
        }
    }
    assert(is_flow(n, es, caps, g, s, t));
    // Value.
    lemma_net_source(l, r, eg, es, g, es.len() as int);
    assert forall|u: int| 0 <= u < l implies #[trigger] g[u] == (if exists|j: int| 0 <= j < o.len() && o[j].0 as int == u { 1int } else { 0 }) by {}
    lemma_pre_sum_ext(g, o, l);
    lemma_left_count(o, l);
}

/// Adding one edge to a graph leaves its maximum matchings as large as
/// before or one pair larger.
pub proof fn law_added_edge_grows_matching_by_at_most_one(
    eg: Seq<(usize, usize)>,
    e: (usize, usize),
    m1: Seq<(usize, usize)>,
    m2: Seq<(usize, usize)>,
)
    requires
        is_maximum_matching(eg, m1),
        is_maximum_matching(eg.push(e), m2),
    ensures
        m1.len() <= m2.len() <= m1.len() + 1,
{
    let eg2 = eg.push(e);
    assert forall|j: int| 0 <= j < m1.len() implies eg2.contains(#[trigger] m1[j]) by {
        assert(eg.contains(m1[j]));
        let i = choose|i: int| 0 <= i < eg.len() && eg[i] == m1[j];
        assert(eg2[i] == m1[j]);
    }
    assert(is_matching(eg2, m1));
    if m2.contains(e) {
        let j0 = choose|j: int| 0 <= j < m2.len() && m2[j] == e;
        let m3 = m2.remove(j0);
        assert forall|j: int| 0 <= j < m3.len() implies eg.contains(#[trigger] m3[j]) by {
            let jj = if j < j0 { j } else { j + 1 };
            assert(m3[j] == m2[jj]);
            assert(eg2.contains(m2[jj]));
            if jj < j0 {
                assert(m2[jj].0 != m2[j0].0);
            } else {
                assert(m2[j0].0 != m2[jj].0);
            }
            let i = choose|i: int| 0 <= i < eg2.len() && eg2[i] == m2[jj];
            assert(i < eg.len());
            assert(eg[i] == m3[j]);
        }
        assert forall|a: int, b: int| 0 <= a < b < m3.len() implies (#[trigger] m3[a]).0 != (#[trigger] m3[b]).0
            && m3[a].1 != m3[b].1 by {
            let aa = if a < j0 { a } else { a + 1 };
            let bb = if b < j0 { b } else { b + 1 };
            assert(m3[a] == m2[aa] && m3[b] == m2[bb]);
            assert(aa < bb);
        }
        assert(is_matching(eg, m3));
    } else {
        assert forall|j: int| 0 <= j < m2.len() implies eg.contains(#[trigger] m2[j]) by {
            assert(eg2.contains(m2[j]));
            let i = choose|i: int| 0 <= i < eg2.len() && eg2[i] == m2[j];
            if i == eg.len() {
                assert(m2[j] == e);
            }
            assert(eg[i] == m2[j]);
        }
        assert(is_matching(eg, m2));
    }
}

} // verus!
