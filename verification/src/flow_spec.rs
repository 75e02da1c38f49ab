//! The mathematical model of a flow network and of the flows on it.
//!
//! A network is an adjacency list of slots `(to, capacity, rev)`.  Every edge
//! that `add_edge` creates occupies two slots: its forward slot, holding the
//! capacity, and its reverse slot, holding 0.  An algorithm works on a copy
//! of the adjacency list, the residual network: the flow on an edge is what
//! its forward slot has lost, which is exactly what its reverse slot holds.
//!
//! The flow itself is described over the ghost list of edges: a sequence of
//! integers, one per edge, that respects capacities and is conserved at every
//! vertex other than the source and the sink.  Its value is the net flow out
//! of the source.  The laws of this module are the weak duality between flows
//! and cuts and its tight case, which together make the max-flow min-cut
//! certificate used by every algorithm of the crate.
use vstd::prelude::*;

verus! {

/// One slot of an adjacency list: (target vertex, residual capacity, index of the paired slot).
pub type Slot = (usize, u64, usize);

/// Where the two slots of an edge stand: the forward slot `adj[from][fi]` and
/// the reverse slot `adj[to][ti]`.
pub struct EdgeRef {
    pub from: int,
    pub fi: int,
    pub to: int,
    pub ti: int,
}

/// The adjacency list of an executable network, as nested sequences.
pub open spec fn deep(a: Seq<Vec<Slot>>) -> Seq<Seq<Slot>> {
    a.map_values(|r: Vec<Slot>| r@)
}

/// Every slot names a vertex below `n` and a paired slot that exists.
pub open spec fn bounds_ok(n: int, a: Seq<Seq<Slot>>) -> bool {
    &&& a.len() == n
    &&& forall|u: int, i: int|
        #![trigger a[u][i]]
        0 <= u < n && 0 <= i < a[u].len() ==> {
            &&& (a[u][i].0 as int) < n
            &&& (a[u][i].2 as int) < a[a[u][i].0 as int].len()
        }
}

/// The slots of edge `e` exist and point at each other.
pub open spec fn edge_slots_ok(n: int, a: Seq<Seq<Slot>>, e: EdgeRef) -> bool {
    &&& 0 <= e.from < n
    &&& 0 <= e.to < n
    &&& 0 <= e.fi < a[e.from].len()
    &&& 0 <= e.ti < a[e.to].len()
    &&& a[e.from][e.fi].0 == e.to
    &&& a[e.to][e.ti].0 == e.from
    &&& a[e.from][e.fi].2 == e.ti
    &&& a[e.to][e.ti].2 == e.fi
}

/// The edges and the owner table describe every slot of `a` exactly once:
/// `ow[u][i] == (k, true)` when slot `(u, i)` is the forward slot of edge `k`,
/// `(k, false)` when it is its reverse slot.
pub open spec fn edges_ok(n: int, a: Seq<Seq<Slot>>, es: Seq<EdgeRef>, ow: Seq<Seq<(int, bool)>>) -> bool {
    &&& ow.len() == n
    &&& forall|u: int| #![trigger ow[u]] 0 <= u < n ==> ow[u].len() == a[u].len()
    &&& forall|k: int|
        #![trigger es[k]]
        0 <= k < es.len() ==> {
            &&& edge_slots_ok(n, a, es[k])
            &&& ow[es[k].from][es[k].fi] == (k, true)
            &&& ow[es[k].to][es[k].ti] == (k, false)
        }
    &&& forall|u: int, i: int|
        #![trigger ow[u][i]]
        0 <= u < n && 0 <= i < a[u].len() ==> {
            let (k, fwd) = ow[u][i];
            &&& 0 <= k < es.len()
            &&& fwd ==> es[k].from == u && es[k].fi == i
            &&& !fwd ==> es[k].to == u && es[k].ti == i
        }
}

/// Two adjacency lists that differ in capacities only.
pub open spec fn same_shape(a: Seq<Seq<Slot>>, b: Seq<Seq<Slot>>) -> bool {
    &&& a.len() == b.len()
    &&& forall|u: int| #![trigger b[u]] 0 <= u < a.len() ==> a[u].len() == b[u].len()
    &&& forall|u: int, i: int|
        #![trigger b[u][i]]
        0 <= u < a.len() && 0 <= i < a[u].len() ==> a[u][i].0 == b[u][i].0 && a[u][i].2 == b[u][i].2
}

/// A network as `add_edge` builds it: slots in bounds, every slot owned by one
/// edge, and every reverse slot of capacity 0.
pub open spec fn network_ok(n: int, a: Seq<Seq<Slot>>, es: Seq<EdgeRef>, ow: Seq<Seq<(int, bool)>>) -> bool {
    &&& bounds_ok(n, a)
    &&& edges_ok(n, a, es, ow)
    &&& forall|k: int| #![trigger es[k]] 0 <= k < es.len() ==> a[es[k].to][es[k].ti].1 == 0
}

/// Capacity of edge `e` in the network `a`.
pub open spec fn cap(a: Seq<Seq<Slot>>, e: EdgeRef) -> int {
    a[e.from][e.fi].1 as int
}

/// The capacities of all edges.
pub open spec fn caps_of(a: Seq<Seq<Slot>>, es: Seq<EdgeRef>) -> Seq<int> {
    Seq::new(es.len(), |k: int| cap(a, es[k]))
}

/// Sum of the capacities of the first `m` edges.
pub open spec fn cap_total(caps: Seq<int>, m: int) -> int
    decreases m,
{
    if m <= 0 {
        0
    } else {
        cap_total(caps, m - 1) + caps[m - 1]
    }
}

/// `res` is a residual network of `orig`: same slots, and on every edge the
/// two slots together hold the edge's capacity.
pub open spec fn residual_ok(orig: Seq<Seq<Slot>>, res: Seq<Seq<Slot>>, es: Seq<EdgeRef>) -> bool {
    &&& same_shape(orig, res)
    &&& forall|k: int|
        #![trigger es[k]]
        0 <= k < es.len() ==> res[es[k].from][es[k].fi].1 + res[es[k].to][es[k].ti].1 == orig[es[k].from][es[k].fi].1
}

/// The flow that a residual network carries: what each forward slot has lost.
pub open spec fn flow_of(orig: Seq<Seq<Slot>>, res: Seq<Seq<Slot>>, es: Seq<EdgeRef>) -> Seq<int> {
    Seq::new(es.len(), |k: int| orig[es[k].from][es[k].fi].1 - res[es[k].from][es[k].fi].1)
}

/// What an edge carrying `x` adds to the net outflow of vertex `w`.
pub open spec fn edge_share(e: EdgeRef, x: int, w: int) -> int {
    (if e.from == w { x } else { 0 }) - (if e.to == w { x } else { 0 })
}

/// Net outflow of `w` over the first `m` edges.
pub open spec fn net_upto(es: Seq<EdgeRef>, f: Seq<int>, w: int, m: int) -> int
    decreases m,
{
    if m <= 0 {
        0
    } else {
        net_upto(es, f, w, m - 1) + edge_share(es[m - 1], f[m - 1], w)
    }
}

/// Net outflow of vertex `w` under the flow `f`.
pub open spec fn net(es: Seq<EdgeRef>, f: Seq<int>, w: int) -> int {
    net_upto(es, f, w, es.len() as int)
}

/// `f` is an `s`-`t` flow: one value per edge, between 0 and the capacity,
/// conserved at every vertex but `s` and `t`.
pub open spec fn is_flow(n: int, es: Seq<EdgeRef>, caps: Seq<int>, f: Seq<int>, s: int, t: int) -> bool {
    &&& f.len() == es.len()
    &&& forall|k: int| #![trigger f[k]] 0 <= k < es.len() ==> 0 <= f[k] <= caps[k]
    &&& forall|w: int| 0 <= w < n && w != s && w != t ==> #[trigger] net(es, f, w) == 0
}

/// `v` is the value of a maximum `s`-`t` flow.
pub open spec fn is_max_flow_value(n: int, es: Seq<EdgeRef>, caps: Seq<int>, s: int, t: int, v: int) -> bool {
    &&& exists|f: Seq<int>| is_flow(n, es, caps, f, s, t) && net(es, f, s) == v
    &&& forall|g: Seq<int>| is_flow(n, es, caps, g, s, t) ==> net(es, g, s) <= v
}

/// `v` is the smallest capacity of a cut between `s` and `t`.
pub open spec fn is_min_cut_value(n: int, es: Seq<EdgeRef>, caps: Seq<int>, s: int, t: int, v: int) -> bool {
    &&& exists|cut: Seq<bool>| is_cut(n, cut, s, t) && cut_cap(es, caps, cut) == v
    &&& forall|cut: Seq<bool>| is_cut(n, cut, s, t) ==> v <= cut_cap(es, caps, cut)
}

/// `S` separates `s` from `t`.
pub open spec fn is_cut(n: int, cut: Seq<bool>, s: int, t: int) -> bool {
    &&& cut.len() == n
    &&& 0 <= s < n
    &&& 0 <= t < n
    &&& cut[s]
    &&& !cut[t]
}

/// Capacity of the first `m` edges that leave the side `cut`.
pub open spec fn cut_cap_upto(es: Seq<EdgeRef>, caps: Seq<int>, cut: Seq<bool>, m: int) -> int
    decreases m,
{
    if m <= 0 {
        0
    } else {
        cut_cap_upto(es, caps, cut, m - 1) + (if cut[es[m - 1].from] && !cut[es[m - 1].to] {
            caps[m - 1]
        } else {
            0
        })
    }
}

/// Capacity of the cut `cut`: the edges going from inside to outside.
pub open spec fn cut_cap(es: Seq<EdgeRef>, caps: Seq<int>, cut: Seq<bool>) -> int {
    cut_cap_upto(es, caps, cut, es.len() as int)
}

/// Net flow across the side `cut` over the first `m` edges.
pub open spec fn cross_upto(es: Seq<EdgeRef>, f: Seq<int>, cut: Seq<bool>, m: int) -> int
    decreases m,
{
    if m <= 0 {
        0
    } else {
        cross_upto(es, f, cut, m - 1) + (if cut[es[m - 1].from] { f[m - 1] } else { 0 }) - (if cut[es[m - 1].to] {
            f[m - 1]
        } else {
            0
        })
    }
}

/// The sum of the net outflows of the first `nv` vertices that lie in `cut`.
pub open spec fn weighted(es: Seq<EdgeRef>, f: Seq<int>, cut: Seq<bool>, nv: int, m: int) -> int
    decreases nv,
{
    if nv <= 0 {
        0
    } else {
        weighted(es, f, cut, nv - 1, m) + (if cut[nv - 1] { net_upto(es, f, nv - 1, m) } else { 0 })
    }
}

/// No slot with capacity left leaves the side `cut`.
pub open spec fn closed(res: Seq<Seq<Slot>>, cut: Seq<bool>) -> bool {
    forall|u: int, i: int|
        #![trigger res[u][i]]
        0 <= u < res.len() && 0 <= i < res[u].len() && cut[u] && res[u][i].1 > 0 ==> cut[res[u][i].0 as int]
}

/// Every edge's endpoints lie below `n`.
pub open spec fn endpoints_ok(n: int, es: Seq<EdgeRef>) -> bool {
    forall|k: int| #![trigger es[k]] 0 <= k < es.len() ==> 0 <= es[k].from < n && 0 <= es[k].to < n
}

// ---------------------------------------------------------------------------
// Lemmas
// ---------------------------------------------------------------------------

/// Changing the flow of one edge changes net outflows by that edge's share.
pub proof fn lemma_net_update(es: Seq<EdgeRef>, f: Seq<int>, k: int, d: int, w: int, m: int)
    requires
        0 <= k < f.len(),
        f.len() == es.len(),
        m <= es.len(),
    ensures
        net_upto(es, f.update(k, f[k] + d), w, m) == net_upto(es, f, w, m) + (if k < m {
            edge_share(es[k], d, w)
        } else {
            0
        }),
    decreases m,
{
    if m > 0 {
        lemma_net_update(es, f, k, d, w, m - 1);
    }
}

proof fn lemma_weighted_step(es: Seq<EdgeRef>, f: Seq<int>, cut: Seq<bool>, nv: int, m: int)
    requires
        0 <= m < es.len(),
        0 <= nv,
    ensures
        weighted(es, f, cut, nv, m + 1) == weighted(es, f, cut, nv, m) + (if 0 <= es[m].from < nv
            && cut[es[m].from] {
            f[m]
        } else {
            0
        }) - (if 0 <= es[m].to < nv && cut[es[m].to] {
            f[m]
        } else {
            0
        }),
    decreases nv,
{
    if nv > 0 {
        lemma_weighted_step(es, f, cut, nv - 1, m);
    }
}

proof fn lemma_weighted_is_cross(n: int, es: Seq<EdgeRef>, f: Seq<int>, cut: Seq<bool>, m: int)
    requires
        0 <= m <= es.len(),
        endpoints_ok(n, es),
    ensures
        weighted(es, f, cut, n, m) == cross_upto(es, f, cut, m),
    decreases m,
{
    if m == 0 {
        lemma_weighted_zero(es, f, cut, n);
    } else {
        assert(0 <= es[m - 1].from < n);
        lemma_weighted_is_cross(n, es, f, cut, m - 1);
        lemma_weighted_step(es, f, cut, n, m - 1);
    }
}

proof fn lemma_weighted_zero(es: Seq<EdgeRef>, f: Seq<int>, cut: Seq<bool>, nv: int)
    ensures
        weighted(es, f, cut, nv, 0) == 0,
    decreases nv,
{
    if nv > 0 {
        lemma_weighted_zero(es, f, cut, nv - 1);
    }
}

proof fn lemma_weighted_conserved(
    n: int,
    es: Seq<EdgeRef>,
    f: Seq<int>,
    cut: Seq<bool>,
    s: int,
    t: int,
    nv: int,
)
    requires
        0 <= nv <= n,
        is_cut(n, cut, s, t),
        forall|w: int| 0 <= w < n && w != s && w != t ==> #[trigger] net(es, f, w) == 0,
    ensures
        weighted(es, f, cut, nv, es.len() as int) == (if s < nv { net(es, f, s) } else { 0 }),
    decreases nv,
{
    if nv > 0 {
        lemma_weighted_conserved(n, es, f, cut, s, t, nv - 1);
        let w = nv - 1;
        if w != s && w != t {
            assert(net(es, f, w) == 0);
        }
    }
}

/// The net outflow of the source equals the net flow across any cut.
pub proof fn lemma_value_is_cross(n: int, es: Seq<EdgeRef>, f: Seq<int>, cut: Seq<bool>, s: int, t: int)
    requires
        endpoints_ok(n, es),
        is_cut(n, cut, s, t),
        forall|w: int| 0 <= w < n && w != s && w != t ==> #[trigger] net(es, f, w) == 0,
    ensures
        net(es, f, s) == cross_upto(es, f, cut, es.len() as int),
{
    lemma_weighted_conserved(n, es, f, cut, s, t, n);
    lemma_weighted_is_cross(n, es, f, cut, es.len() as int);
}

proof fn lemma_cross_le_cut(es: Seq<EdgeRef>, caps: Seq<int>, f: Seq<int>, cut: Seq<bool>, m: int)
    requires
        0 <= m <= es.len(),
        forall|k: int| #![trigger f[k]] 0 <= k < es.len() ==> 0 <= f[k] <= caps[k],
    ensures
        cross_upto(es, f, cut, m) <= cut_cap_upto(es, caps, cut, m),
    decreases m,
{
    if m > 0 {
        lemma_cross_le_cut(es, caps, f, cut, m - 1);
        assert(0 <= f[m - 1] <= caps[m - 1]);
    }
}

/// Weak duality: the value of any flow is at most the capacity of any cut.
pub proof fn law_flow_at_most_cut(
    n: int,
    es: Seq<EdgeRef>,
    caps: Seq<int>,
    f: Seq<int>,
    cut: Seq<bool>,
    s: int,
    t: int,
)
    requires
        endpoints_ok(n, es),
        is_flow(n, es, caps, f, s, t),
        is_cut(n, cut, s, t),
    ensures
        net(es, f, s) <= cut_cap(es, caps, cut),
{
    lemma_value_is_cross(n, es, f, cut, s, t);
    lemma_cross_le_cut(es, caps, f, cut, es.len() as int);
}

proof fn lemma_cross_tight(
    n: int,
    orig: Seq<Seq<Slot>>,
    res: Seq<Seq<Slot>>,
    es: Seq<EdgeRef>,
    ow: Seq<Seq<(int, bool)>>,
    cut: Seq<bool>,
    m: int,
)
    requires
        0 <= m <= es.len(),
        orig.len() == n,
        edges_ok(n, orig, es, ow),
        residual_ok(orig, res, es),
        cut.len() == n,
        closed(res, cut),
    ensures
        cross_upto(es, flow_of(orig, res, es), cut, m) == cut_cap_upto(es, caps_of(orig, es), cut, m),
    decreases m,
{
    if m > 0 {
        lemma_cross_tight(n, orig, res, es, ow, cut, m - 1);
        let k = m - 1;
        let e = es[k];
        assert(edge_slots_ok(n, orig, e));
        let rf = res[e.from][e.fi];
        let rb = res[e.to][e.ti];
        assert(rf.0 == orig[e.from][e.fi].0);
        assert(rb.0 == orig[e.to][e.ti].0);
        if cut[e.from] && !cut[e.to] {
            if rf.1 > 0 {
                assert(cut[rf.0 as int]);
            }
        }
        if !cut[e.from] && cut[e.to] {
            if rb.1 > 0 {
                assert(cut[rb.0 as int]);
            }
        }
    }
}

/// A residual network carries a flow: capacities hold, and every edge's flow
/// is what its reverse slot holds.
pub proof fn lemma_flow_of_bounds(orig: Seq<Seq<Slot>>, res: Seq<Seq<Slot>>, es: Seq<EdgeRef>)
    requires
        residual_ok(orig, res, es),
    ensures
        forall|k: int|
            #![trigger flow_of(orig, res, es)[k]]
            0 <= k < es.len() ==> 0 <= flow_of(orig, res, es)[k] <= caps_of(orig, es)[k]
                && flow_of(orig, res, es)[k] == res[es[k].to][es[k].ti].1,
{
    assert forall|k: int| 0 <= k < es.len() implies 0 <= #[trigger] flow_of(orig, res, es)[k] <= caps_of(
        orig,
        es,
    )[k] && flow_of(orig, res, es)[k] == res[es[k].to][es[k].ti].1 by {
        assert(es[k] == es[k]);
    }
}

/// Max-flow min-cut: a flow carried by a residual network in which the side
/// `cut` of the source is closed has the greatest value of all flows, and
/// that value is the capacity of `cut`.
pub proof fn law_closed_cut_certifies_max_flow(
    n: int,
    orig: Seq<Seq<Slot>>,
    res: Seq<Seq<Slot>>,
    es: Seq<EdgeRef>,
    ow: Seq<Seq<(int, bool)>>,
    cut: Seq<bool>,
    s: int,
    t: int,
)
    requires
        edges_ok(n, orig, es, ow),
        residual_ok(orig, res, es),
        forall|w: int|
            0 <= w < n && w != s && w != t ==> #[trigger] net(es, flow_of(orig, res, es), w) == 0,
        is_cut(n, cut, s, t),
        closed(res, cut),
        orig.len() == n,
    ensures
        is_max_flow_value(n, es, caps_of(orig, es), s, t, net(es, flow_of(orig, res, es), s)),
        is_min_cut_value(n, es, caps_of(orig, es), s, t, net(es, flow_of(orig, res, es), s)),
        net(es, flow_of(orig, res, es), s) == cut_cap(es, caps_of(orig, es), cut),
{
    let f = flow_of(orig, res, es);
    let caps = caps_of(orig, es);
    lemma_endpoints(n, orig, es, ow);
    lemma_flow_of_bounds(orig, res, es);
    assert(is_flow(n, es, caps, f, s, t));
    lemma_value_is_cross(n, es, f, cut, s, t);
    lemma_cross_tight(n, orig, res, es, ow, cut, es.len() as int);
    assert forall|g: Seq<int>| is_flow(n, es, caps, g, s, t) implies net(es, g, s) <= net(es, f, s) by {
        law_flow_at_most_cut(n, es, caps, g, cut, s, t);
    }
    assert forall|c: Seq<bool>| is_cut(n, c, s, t) implies net(es, f, s) <= cut_cap(es, caps, c) by {
        law_flow_at_most_cut(n, es, caps, f, c, s, t);
    }
}

pub proof fn lemma_endpoints(n: int, a: Seq<Seq<Slot>>, es: Seq<EdgeRef>, ow: Seq<Seq<(int, bool)>>)
    requires
        edges_ok(n, a, es, ow),
    ensures
        endpoints_ok(n, es),
{
    assert forall|k: int| #![trigger es[k]] 0 <= k < es.len() implies 0 <= es[k].from < n && 0 <= es[k].to
        < n by {
        assert(edge_slots_ok(n, a, es[k]));
    }
}


/// The residual network after pushing `p` units through slot `(u, i)`: the
/// slot loses `p` and its paired slot gains `p`.
pub open spec fn augmented(res: Seq<Seq<Slot>>, u: int, i: int, p: u64) -> Seq<Seq<Slot>> {
    let s = res[u][i];
    let r1 = res.update(u, res[u].update(i, (s.0, (s.1 - p) as u64, s.2)));
    let t = r1[s.0 as int][s.2 as int];
    r1.update(s.0 as int, r1[s.0 as int].update(s.2 as int, (t.0, (t.1 + p) as u64, t.2)))
}

/// Pushing `p` units through a slot between two distinct vertices keeps a
/// residual network of the same network, and moves `p` units of net outflow
/// from the slot's target to its owner.
pub proof fn lemma_augment_slot(
    n: int,
    orig: Seq<Seq<Slot>>,
    res: Seq<Seq<Slot>>,
    es: Seq<EdgeRef>,
    ow: Seq<Seq<(int, bool)>>,
    u: int,
    i: int,
    p: u64,
)
    requires
        bounds_ok(n, orig),
        edges_ok(n, orig, es, ow),
        residual_ok(orig, res, es),
        0 <= u < n,
        0 <= i < res[u].len(),
        res[u][i].0 != u,
        p <= res[u][i].1,
    ensures
        res[res[u][i].0 as int][res[u][i].2 as int].1 + p <= u64::MAX,
        0 <= res[u][i].0 < n,
        0 <= res[u][i].2 < res[res[u][i].0 as int].len(),
        res[res[u][i].0 as int][res[u][i].2 as int].0 == u,
        residual_ok(orig, augmented(res, u, i, p), es),
        ({
            let (k, fwd) = ow[u][i];
            &&& 0 <= k < es.len()
            &&& fwd ==> es[k].from == u && es[k].fi == i
            &&& !fwd ==> es[k].to == u && es[k].ti == i
            &&& flow_of(orig, augmented(res, u, i, p), es) == flow_of(orig, res, es).update(
                k,
                flow_of(orig, res, es)[k] + (if fwd { p as int } else { -(p as int) }),
            )
        }),
        forall|w: int|
            #![trigger net(es, flow_of(orig, augmented(res, u, i, p), es), w)]
            net(es, flow_of(orig, augmented(res, u, i, p), es), w) == net(es, flow_of(orig, res, es), w) + (
            if w == u {
                p as int
            } else {
                0
            }) - (if w == res[u][i].0 { p as int } else { 0 }),
{
    let v = res[u][i].0 as int;
    let r = res[u][i].2 as int;
    let (k, fwd) = ow[u][i];
    let e = es[k];
    assert(edge_slots_ok(n, orig, e));
    assert(orig[u][i].0 == res[u][i].0 && orig[u][i].2 == res[u][i].2);
    if fwd {
        assert(e.from == u && e.fi == i && e.to == v && e.ti == r);
    } else {
        assert(e.to == u && e.ti == i && e.from == v && e.fi == r);
    }
    assert(0 <= r < res[v].len());
    assert(res[u][i].1 + res[v][r].1 == orig[e.from][e.fi].1);
    let aug = augmented(res, u, i, p);
    let f = flow_of(orig, res, es);
    let d: int = if fwd { p as int } else { -(p as int) };
    let g = f.update(k, f[k] + d);
    assert forall|j: int| #![trigger es[j]] 0 <= j < es.len() && j != k implies aug[es[j].from][es[j].fi]
        == res[es[j].from][es[j].fi] && aug[es[j].to][es[j].ti] == res[es[j].to][es[j].ti] by {
        assert(ow[es[j].from][es[j].fi] == (j, true));
        assert(ow[es[j].to][es[j].ti] == (j, false));
        assert(ow[v][r] == (k, !fwd));
    }
    assert(same_shape(orig, aug));
    assert(residual_ok(orig, aug, es)) by {
        assert forall|j: int| #![trigger es[j]] 0 <= j < es.len() implies aug[es[j].from][es[j].fi].1
            + aug[es[j].to][es[j].ti].1 == orig[es[j].from][es[j].fi].1 by {
            if j != k {
                assert(res[es[j].from][es[j].fi].1 + res[es[j].to][es[j].ti].1 == orig[es[j].from][es[j].fi].1);
            }
        }
    }
    assert(flow_of(orig, aug, es) =~= g) by {
        assert forall|j: int| 0 <= j < es.len() implies flow_of(orig, aug, es)[j] == g[j] by {
            assert(es[j] == es[j]);
        }
    }
    assert forall|w: int|
        #![trigger net(es, flow_of(orig, aug, es), w)]
        net(es, flow_of(orig, aug, es), w) == net(es, f, w) + (if w == u { p as int } else { 0 }) - (if w == v {
            p as int
        } else {
            0
        }) by {
        lemma_net_update(es, f, k, d, w, es.len() as int);
    }
}

/// Count of the `false` entries among the first `m` of `s`.
pub open spec fn count_false(s: Seq<bool>, m: int) -> int
    decreases m,
{
    if m <= 0 {
        0
    } else {
        count_false(s, m - 1) + (if s[m - 1] { 0int } else { 1 })
    }
}

/// Marking more entries never raises the count of unmarked ones, and marking
/// a new one lowers it.
pub proof fn lemma_count_false_mono(a: Seq<bool>, b: Seq<bool>, m: int, w: int)
    requires
        0 <= m <= a.len(),
        a.len() == b.len(),
        forall|x: int| 0 <= x < a.len() && a[x] ==> b[x],
    ensures
        0 <= count_false(b, m) <= count_false(a, m),
        0 <= w < m && !a[w] && b[w] ==> count_false(b, m) < count_false(a, m),
    decreases m,
{
    if m > 0 {
        lemma_count_false_mono(a, b, m - 1, w);
    }
}

/// One edge's capacity is at most the total.
pub proof fn lemma_cap_le_total(caps: Seq<int>, m: int, k: int)
    requires
        0 <= k < m <= caps.len(),
        forall|j: int| 0 <= j < caps.len() ==> caps[j] >= 0,
    ensures
        0 <= caps[k] <= cap_total(caps, m),
        0 <= cap_total(caps, m),
    decreases m,
{
    if m - 1 > k {
        lemma_cap_le_total(caps, m - 1, k);
    } else {
        lemma_cap_total_nonneg(caps, m - 1);
    }
}

pub proof fn lemma_cap_total_nonneg(caps: Seq<int>, m: int)
    requires
        m <= caps.len(),
        forall|j: int| 0 <= j < caps.len() ==> caps[j] >= 0,
    ensures
        0 <= cap_total(caps, m),
    decreases m,
{
    if m > 0 {
        lemma_cap_total_nonneg(caps, m - 1);
    }
}

/// Every slot of a residual network, and of the network itself, holds at
/// most the total capacity.
pub proof fn lemma_slots_bounded(
    n: int,
    orig: Seq<Seq<Slot>>,
    res: Seq<Seq<Slot>>,
    es: Seq<EdgeRef>,
    ow: Seq<Seq<(int, bool)>>,
)
    requires
        network_ok(n, orig, es, ow),
        residual_ok(orig, res, es),
    ensures
        forall|u: int, j: int|
            #![trigger res[u][j]]
            0 <= u < n && 0 <= j < res[u].len() ==> res[u][j].1 <= cap_total(caps_of(orig, es), es.len() as int)
                && orig[u][j].1 <= cap_total(caps_of(orig, es), es.len() as int),
        0 <= cap_total(caps_of(orig, es), es.len() as int),
{
    let caps = caps_of(orig, es);
    lemma_cap_total_nonneg(caps, es.len() as int);
    assert forall|u: int, j: int| 0 <= u < n && 0 <= j < res[u].len() implies #[trigger] res[u][j].1
        <= cap_total(caps, es.len() as int) && orig[u][j].1 <= cap_total(caps, es.len() as int) by {
        assert(res[u].len() == orig[u].len());
        let (k, fwd) = ow[u][j];
        assert(es[k] == es[k]);
        lemma_cap_le_total(caps, es.len() as int, k);
    }
}

proof fn lemma_cut_cap_le_total(es: Seq<EdgeRef>, caps: Seq<int>, cut: Seq<bool>, m: int)
    requires
        0 <= m <= es.len(),
        caps.len() == es.len(),
        forall|j: int| 0 <= j < caps.len() ==> caps[j] >= 0,
    ensures
        cut_cap_upto(es, caps, cut, m) <= cap_total(caps, m),
    decreases m,
{
    if m > 0 {
        lemma_cut_cap_le_total(es, caps, cut, m - 1);
    }
}

/// The value of a flow carried by a residual network is at most the total capacity.
pub proof fn lemma_value_le_total(
    n: int,
    orig: Seq<Seq<Slot>>,
    res: Seq<Seq<Slot>>,
    es: Seq<EdgeRef>,
    ow: Seq<Seq<(int, bool)>>,
    s: int,
    t: int,
)
    requires
        network_ok(n, orig, es, ow),
        residual_ok(orig, res, es),
        0 <= s < n,
        0 <= t < n,
        s != t,
        forall|w: int|
            0 <= w < n && w != s && w != t ==> #[trigger] net(es, flow_of(orig, res, es), w) == 0,
    ensures
        net(es, flow_of(orig, res, es), s) <= cap_total(caps_of(orig, es), es.len() as int),
{
    let caps = caps_of(orig, es);
    let f = flow_of(orig, res, es);
    let cut = Seq::new(n as nat, |w: int| w == s);
    lemma_endpoints(n, orig, es, ow);
    lemma_flow_of_bounds(orig, res, es);
    assert(is_flow(n, es, caps, f, s, t));
    law_flow_at_most_cut(n, es, caps, f, cut, s, t);
    lemma_cut_cap_le_total(es, caps, cut, es.len() as int);
}


/// A network is a residual network of itself, carrying no flow.
pub proof fn lemma_zero_flow(n: int, a: Seq<Seq<Slot>>, es: Seq<EdgeRef>, ow: Seq<Seq<(int, bool)>>)
    requires
        network_ok(n, a, es, ow),
    ensures
        residual_ok(a, a, es),
        forall|w: int| #[trigger] net(es, flow_of(a, a, es), w) == 0,
{
    assert forall|w: int| #[trigger] net(es, flow_of(a, a, es), w) == 0 by {
        lemma_net_zero(es, flow_of(a, a, es), w, es.len() as int);
    }
}

proof fn lemma_net_zero(es: Seq<EdgeRef>, f: Seq<int>, w: int, m: int)
    requires
        m <= f.len(),
        forall|k: int| 0 <= k < m ==> f[k] == 0,
    ensures
        net_upto(es, f, w, m) == 0,
    decreases m,
{
    if m > 0 {
        lemma_net_zero(es, f, w, m - 1);
    }
}

/// What the first `m` slots of one vertex's list have lost, summed.
pub open spec fn row_flow_upto(orow: Seq<Slot>, rrow: Seq<Slot>, m: int) -> int
    decreases m,
{
    if m <= 0 {
        0
    } else {
        row_flow_upto(orow, rrow, m - 1) + (orow[m - 1].1 - rrow[m - 1].1)
    }
}

/// What all slots of vertex `w` have lost: its net outflow, read off its own list.
pub open spec fn row_net(orig: Seq<Seq<Slot>>, res: Seq<Seq<Slot>>, w: int) -> int {
    row_flow_upto(orig[w], res[w], res[w].len() as int)
}

/// The net outflow of every vertex can be read off its own list.
pub open spec fn rows_agree(n: int, orig: Seq<Seq<Slot>>, res: Seq<Seq<Slot>>, es: Seq<EdgeRef>) -> bool {
    forall|w: int| 0 <= w < n ==> #[trigger] row_net(orig, res, w) == net(es, flow_of(orig, res, es), w)
}

proof fn lemma_row_update(orow: Seq<Slot>, rrow: Seq<Slot>, j: int, x: Slot, m: int)
    requires
        0 <= j < rrow.len(),
        m <= rrow.len(),
    ensures
        row_flow_upto(orow, rrow.update(j, x), m) == row_flow_upto(orow, rrow, m) + (if j < m {
            rrow[j].1 - x.1
        } else {
            0
        }),
    decreases m,
{
    if m > 0 {
        lemma_row_update(orow, rrow, j, x, m - 1);
    }
}

proof fn lemma_row_zero(row: Seq<Slot>, m: int)
    ensures
        row_flow_upto(row, row, m) == 0,
    decreases m,
{
    if m > 0 {
        lemma_row_zero(row, m - 1);
    }
}

/// In a network carrying no flow, the lists agree with the edges.
pub proof fn lemma_rows_agree_zero(n: int, a: Seq<Seq<Slot>>, es: Seq<EdgeRef>, ow: Seq<Seq<(int, bool)>>)
    requires
        network_ok(n, a, es, ow),
    ensures
        rows_agree(n, a, a, es),
{
    lemma_zero_flow(n, a, es, ow);
    assert forall|w: int| 0 <= w < n implies #[trigger] row_net(a, a, w) == net(es, flow_of(a, a, es), w) by {
        lemma_row_zero(a[w], a[w].len() as int);
    }
}

/// Pushing through a slot keeps the lists in agreement with the edges.
pub proof fn lemma_augment_rows(
    n: int,
    orig: Seq<Seq<Slot>>,
    res: Seq<Seq<Slot>>,
    es: Seq<EdgeRef>,
    ow: Seq<Seq<(int, bool)>>,
    u: int,
    i: int,
    p: u64,
)
    requires
        bounds_ok(n, orig),
        edges_ok(n, orig, es, ow),
        residual_ok(orig, res, es),
        rows_agree(n, orig, res, es),
        0 <= u < n,
        0 <= i < res[u].len(),
        res[u][i].0 != u,
        p <= res[u][i].1,
    ensures
        rows_agree(n, orig, augmented(res, u, i, p), es),
{
    lemma_augment_slot(n, orig, res, es, ow, u, i, p);
    let v = res[u][i].0 as int;
    let r = res[u][i].2 as int;
    let s0 = res[u][i];
    let r1 = res.update(u, res[u].update(i, (s0.0, (s0.1 - p) as u64, s0.2)));
    let t = r1[v][r];
    let aug = augmented(res, u, i, p);
    assert(t == res[v][r]);
    assert forall|w: int| 0 <= w < n implies #[trigger] row_net(orig, aug, w) == net(es, flow_of(orig, aug, es), w) by {
        assert(row_net(orig, res, w) == net(es, flow_of(orig, res, es), w));
        assert(res[w].len() == orig[w].len());
        if w == u {
            lemma_row_update(orig[u], res[u], i, (s0.0, (s0.1 - p) as u64, s0.2), res[u].len() as int);
            assert(aug[u] == res[u].update(i, (s0.0, (s0.1 - p) as u64, s0.2)));
        } else if w == v {
            lemma_row_update(orig[v], res[v], r, (t.0, (t.1 + p) as u64, t.2), res[v].len() as int);
            assert(aug[v] == res[v].update(r, (t.0, (t.1 + p) as u64, t.2)));
        } else {
            assert(aug[w] == res[w]);
        }
    }
}

/// Bounds depend on the shape only.
pub proof fn lemma_shape_bounds(n: int, a: Seq<Seq<Slot>>, b: Seq<Seq<Slot>>)
    requires
        bounds_ok(n, a),
        same_shape(a, b),
    ensures
        bounds_ok(n, b),
{
    assert forall|u: int, i: int| 0 <= u < n && 0 <= i < b[u].len() implies {
        &&& (#[trigger] b[u][i].0 as int) < n
        &&& (b[u][i].2 as int) < b[b[u][i].0 as int].len()
    } by {
        assert(a[u][i].0 == b[u][i].0);
        assert(a[a[u][i].0 as int].len() == b[a[u][i].0 as int].len());
    }
}

/// `p` is a walk that follows, step by step, the slots `q` with capacity left.
pub open spec fn is_walk(res: Seq<Seq<Slot>>, p: Seq<int>, q: Seq<int>) -> bool {
    &&& p.len() == q.len() + 1
    &&& forall|k: int| 0 <= k < q.len() ==> #[trigger] walk_step(res, p, q, k)
}

/// Step `k` of a walk goes through a slot with capacity left.
pub open spec fn walk_step(res: Seq<Seq<Slot>>, p: Seq<int>, q: Seq<int>, k: int) -> bool {
    &&& 0 <= p[k] < res.len()
    &&& 0 <= q[k] < res[p[k]].len()
    &&& res[p[k]][q[k]].0 == p[k + 1]
    &&& res[p[k]][q[k]].1 > 0
}

/// `w` can be reached from `s` through slots with capacity left.
pub open spec fn reachable(res: Seq<Seq<Slot>>, s: int, w: int) -> bool {
    exists|p: Seq<int>, q: Seq<int>| #[trigger] is_walk(res, p, q) && p[0] == s && p.last() == w
}

/// A closed side that holds the start holds every vertex reachable from it.
pub proof fn lemma_closed_holds_reachable(res: Seq<Seq<Slot>>, cut: Seq<bool>, s: int, w: int)
    requires
        closed(res, cut),
        cut.len() == res.len(),
        0 <= s < cut.len(),
        cut[s],
        reachable(res, s, w),
    ensures
        cut[w],
{
    let (p, q) = choose|p: Seq<int>, q: Seq<int>| #[trigger] is_walk(res, p, q) && p[0] == s && p.last() == w;
    lemma_walk_stays(res, cut, p, q, q.len() as int);
}

proof fn lemma_walk_stays(res: Seq<Seq<Slot>>, cut: Seq<bool>, p: Seq<int>, q: Seq<int>, m: int)
    requires
        closed(res, cut),
        cut.len() == res.len(),
        is_walk(res, p, q),
        0 <= m <= q.len(),
        cut[p[0]],
        0 <= p[0] < cut.len(),
    ensures
        cut[p[m]],
    decreases m,
{
    if m > 0 {
        lemma_walk_stays(res, cut, p, q, m - 1);
        let k = m - 1;
        assert(walk_step(res, p, q, k));
    }
}

/// A walk extended by one more slot with capacity left.
pub proof fn lemma_walk_extend(res: Seq<Seq<Slot>>, s: int, u: int, i: int)
    requires
        reachable(res, s, u),
        0 <= u < res.len(),
        0 <= i < res[u].len(),
        res[u][i].1 > 0,
    ensures
        reachable(res, s, res[u][i].0 as int),
{
    let (p, q) = choose|p: Seq<int>, q: Seq<int>| #[trigger] is_walk(res, p, q) && p[0] == s && p.last() == u;
    assert(is_walk(res, p, q));
    let p2 = p.push(res[u][i].0 as int);
    let q2 = q.push(i);
    assert forall|k: int| 0 <= k < q2.len() implies #[trigger] walk_step(res, p2, q2, k) by {
        if k < q.len() {
            assert(walk_step(res, p, q, k));
            assert(q[k] == q2[k]);
            assert(p2[k] == p[k]);
            assert(p2[k + 1] == p[k + 1]);
        } else {
            assert(p2[k] == p[p.len() - 1]);
        }
    }
    assert(is_walk(res, p2, q2));
    assert(p2[0] == s);
    assert(p2.last() == res[u][i].0 as int);
}

/// Every vertex reaches itself.
pub proof fn lemma_reachable_self(res: Seq<Seq<Slot>>, s: int)
    ensures
        reachable(res, s, s),
{
    let p = seq![s];
    let q = Seq::<int>::empty();
    assert(is_walk(res, p, q));
    assert(p[0] == s && p.last() == s);
}









} // verus!
