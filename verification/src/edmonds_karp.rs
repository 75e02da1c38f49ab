//! Edmonds-Karp maximum flow algorithm using BFS.
//!
//! Computes maximum flow using shortest augmenting paths (BFS),
//! guaranteeing O(VE²) time complexity.
use vstd::prelude::*;

use crate::flow_spec::{
    augmented, bounds_ok, cap_total, caps_of, closed, count_false, deep, flow_of, is_cut, is_flow, is_max_flow_value,
    is_min_cut_value, law_closed_cut_certifies_max_flow, lemma_augment_rows, lemma_augment_slot,
    lemma_cap_total_nonneg, lemma_count_false_mono, lemma_reachable_self, lemma_rows_agree_zero, lemma_shape_bounds,
    lemma_closed_holds_reachable, lemma_value_le_total, lemma_walk_extend, cut_cap, lemma_zero_flow, net, network_ok, reachable, residual_ok,
    rows_agree, EdgeRef, Slot,
};
use crate::max_flow::{ford_fulkerson_outcome, max_flow_result};
use crate::{copy_slots, FlowNetwork};

verus! {

/// The search tree of a breadth-first search: every marked vertex but the
/// start has a parent slot with capacity left, from a vertex marked earlier.
pub open spec fn tree_ok(
    res: Seq<Seq<Slot>>,
    vis: Seq<bool>,
    parent: Seq<Option<(usize, usize)>>,
    ord: Seq<int>,
    source: int,
) -> bool {
    &&& parent[source] is None
    &&& forall|x: int|
        #![trigger parent[x]]
        0 <= x < vis.len() && vis[x] && x != source ==> match parent[x] {
            Some((u, i)) => {
                &&& (u as int) < vis.len()
                &&& (i as int) < res[u as int].len()
                &&& res[u as int][i as int].0 == x
                &&& res[u as int][i as int].1 > 0
                &&& vis[u as int]
                &&& 0 <= ord[u as int] < ord[x]
            },
            None => false,
        }
    &&& forall|x: int| #![trigger ord[x]] 0 <= x < vis.len() ==> ord[x] >= 0
}

/// Breadth-first search from `source` over slots with capacity left; when
/// `stop` holds, it stops as soon as `sink` leaves the queue.  When it runs
/// to the end, the marked vertices are closed in `adj`.
pub(crate) fn bfs_tree(adj: &Vec<Vec<Slot>>, source: usize, sink: usize, stop: bool, Ghost(n): Ghost<int>) -> (out: (
    Vec<bool>,
    Vec<Option<(usize, usize)>>,
    Ghost<Seq<int>>,
))
    requires
        bounds_ok(n, deep(adj@)),
        n <= usize::MAX,
        source < n,
        sink < n,
    ensures
        out.0@.len() == n,
        out.1@.len() == n,
        out.2@.len() == n,
        out.0@[source as int],
        tree_ok(deep(adj@), out.0@, out.1@, out.2@, source as int),
        !stop || !out.0@[sink as int] ==> closed(deep(adj@), out.0@),
{
    let ghost res = deep(adj@);
    let mut parent: Vec<Option<(usize, usize)>> = Vec::new();
    let mut visited: Vec<bool> = Vec::new();
    let mut k: usize = 0;
    while k < adj.len()
        invariant
            k <= adj@.len(),
            adj@.len() == n,
            parent@ == Seq::new(k as nat, |x: int| None::<(usize, usize)>),
            visited@ == Seq::new(k as nat, |x: int| false),
        decreases adj@.len() - k,
    {
        parent.push(None);
        visited.push(false);
        k = k + 1;
        assert(parent@ =~= Seq::new(k as nat, |x: int| None::<(usize, usize)>));
        assert(visited@ =~= Seq::new(k as nat, |x: int| false));
    }
    let ghost mut ord: Seq<int> = Seq::new(n as nat, |x: int| 0int);
    let ghost mut counter: int = 1;
    let mut queue: std::collections::VecDeque<usize> = std::collections::VecDeque::new();
    queue.push_back(source);
    visited.set(source, true);
    let mut found = false;
    assert(queue@[0] == source);
    while !found && queue.len() > 0
        invariant
            bounds_ok(n, res),
            n <= usize::MAX,
            res == deep(adj@),
            source < n,
            sink < n,
            visited@.len() == n,
            parent@.len() == n,
            ord.len() == n,
            visited@[source as int],
            tree_ok(res, visited@, parent@, ord, source as int),
            forall|x: int| 0 <= x < n ==> #[trigger] ord[x] < counter,
            queue@.no_duplicates(),
            forall|j: int|
                0 <= j < queue@.len() ==> (#[trigger] queue@[j] as int) < n && visited@[queue@[j] as int],
            forall|x: int|
                #![trigger visited@[x]]
                0 <= x < n && visited@[x] ==> queue@.contains(x as usize) || (found && x == sink) || ((!stop
                    || x != sink) && forall|j: int|
                    #![trigger res[x][j]]
                    0 <= j < res[x].len() && res[x][j].1 > 0 ==> visited@[res[x][j].0 as int]),
            found ==> visited@[sink as int] && stop,
        decreases count_false(visited@, n), queue@.len(), (if found { 0int } else { 1 }),
    {
        let ghost q0 = queue@;
        let ghost vis_before = visited@;
        proof {
            lemma_count_false_mono(visited@, visited@, n, 0);
        }
        let u = queue.pop_front().unwrap();
        assert(q0[0] == u);
        assert(!queue@.contains(u)) by {
            if queue@.contains(u) {
                let j = choose|j: int| 0 <= j < queue@.len() && queue@[j] == u;
                assert(q0[j + 1] == u);
            }
        }
        assert forall|x: int| 0 <= x < n && #[trigger] q0.contains(x as usize) && x != u implies queue@.contains(x as usize) by {
            let j = choose|j: int| 0 <= j < q0.len() && q0[j] == x as usize;
            assert(j > 0);
            assert(queue@[j - 1] == x as usize);
        }
        if stop && u == sink {
            found = true;
        } else {
            let deg = adj[u].len();
            let mut i: usize = 0;
            while i < deg
                invariant
                    bounds_ok(n, res),
                    n <= usize::MAX,
                    res == deep(adj@),
                    source < n,
                    sink < n,
                    (u as int) < n,
                    !stop || u != sink,
                    !found,
                    deg == res[u as int].len(),
                    i <= deg,
                    visited@.len() == n,
                    parent@.len() == n,
                    ord.len() == n,
                    visited@[source as int],
                    visited@[u as int],
                    tree_ok(res, visited@, parent@, ord, source as int),
                    forall|x: int| 0 <= x < n ==> #[trigger] ord[x] < counter,
                    queue@.no_duplicates(),
                    !queue@.contains(u),
                    forall|j: int|
                        0 <= j < queue@.len() ==> (#[trigger] queue@[j] as int) < n && visited@[queue@[j] as int],
                    forall|x: int|
                        #![trigger visited@[x]]
                        0 <= x < n && visited@[x] && x != u ==> queue@.contains(x as usize) || ((!stop || x
                            != sink) && forall|j: int|
                            #![trigger res[x][j]]
                            0 <= j < res[x].len() && res[x][j].1 > 0 ==> visited@[res[x][j].0 as int]),
                    forall|j: int| 0 <= j < i && #[trigger] res[u as int][j].1 > 0 ==> visited@[res[u as int][j].0 as int],
                    forall|x: int| 0 <= x < n && vis_before[x] ==> #[trigger] visited@[x],
                    vis_before.len() == n,
                    0 <= count_false(visited@, n),
                    count_false(visited@, n) < count_false(vis_before, n) || (visited@ == vis_before && queue@.len()
                        < q0.len()),
                decreases deg - i,
            {
                let (v, cap, _rev) = adj[u][i];
                assert(res[u as int][i as int] == (v, cap, _rev));
                if cap > 0 && !visited[v] {
                    let ghost vis_prev = visited@;
                    let ghost par_prev = parent@;
                    let ghost ord_prev = ord;
                    visited.set(v, true);
                    parent.set(v, Some((u, i)));
                    proof {
                        ord = ord.update(v as int, counter);
                        counter = counter + 1;
                        lemma_count_false_mono(vis_prev, visited@, n, v as int);
                        lemma_count_false_mono(vis_before, vis_prev, n, v as int);
                    }
                    let ghost q_prev = queue@;
                    queue.push_back(v);
                    proof {
                        assert(queue@.no_duplicates()) by {
                            assert(!q_prev.contains(v));
                        }
                        assert forall|x: int|
                            #![trigger visited@[x]]
                            0 <= x < n && visited@[x] && x != u implies queue@.contains(x as usize) || ((!stop
                                || x != sink) && forall|j: int|
                                #![trigger res[x][j]]
                                0 <= j < res[x].len() && res[x][j].1 > 0 ==> visited@[res[x][j].0 as int]) by {
                            if x != v {
                                assert(vis_prev[x]);
                                if q_prev.contains(x as usize) {
                                    let j = choose|j: int| 0 <= j < q_prev.len() && q_prev[j] == x as usize;
                                    assert(queue@[j] == x as usize);
                                }
                            } else {
                                assert(queue@[queue@.len() - 1] == v);
                            }
                        }
                        assert(v != source);
                        assert(parent@[source as int] == par_prev[source as int]);
                        assert(tree_ok(res, visited@, parent@, ord, source as int)) by {
                            assert forall|x: int|
                                #![trigger parent@[x]]
                                0 <= x < visited@.len() && visited@[x] && x != source implies match parent@[x] {
                                Some((uu, ii)) => {
                                    &&& (uu as int) < visited@.len()
                                    &&& (ii as int) < res[uu as int].len()
                                    &&& res[uu as int][ii as int].0 == x
                                    &&& res[uu as int][ii as int].1 > 0
                                    &&& visited@[uu as int]
                                    &&& 0 <= ord[uu as int] < ord[x]
                                },
                                None => false,
                            } by {
                                if x != v {
                                    assert(vis_prev[x]);
                                    assert(parent@[x] == par_prev[x]);
                                    assert(ord[x] == ord_prev[x]);
                                    match par_prev[x] {
                                        Some((uu, ii)) => {
                                            assert(vis_prev[uu as int]);
                                            assert(uu != v);
                                        },
                                        None => {},
                                    }
                                } else {
                                    assert(ord_prev[u as int] < counter - 1);
                                }
                            }
                        }
                    }
                }
                i = i + 1;
            }
        }
    }
    (visited, parent, Ghost(ord))
}

/// Every vertex of a search tree is reachable from its root.
pub proof fn lemma_tree_reachable(
    res: Seq<Seq<Slot>>,
    vis: Seq<bool>,
    parent: Seq<Option<(usize, usize)>>,
    ord: Seq<int>,
    source: int,
    x: int,
)
    requires
        tree_ok(res, vis, parent, ord, source),
        vis.len() == res.len(),
        0 <= x < vis.len(),
        vis[x],
    ensures
        reachable(res, source, x),
    decreases ord[x],
{
    if x == source {
        lemma_reachable_self(res, source);
    } else {
        assert(ord[x] >= 0);
        match parent[x] {
            Some((u, i)) => {
                lemma_tree_reachable(res, vis, parent, ord, source, u as int);
                lemma_walk_extend(res, source, u as int, i as int);
            },
            None => {},
        }
    }
}

/// What Edmonds-Karp leaves behind: a residual network `res` carrying a
/// conserved flow of value `value`, with the source's side `cut` closed in it.
pub open spec fn edmonds_karp_outcome(
    n: int,
    orig: Seq<Seq<Slot>>,
    es: Seq<EdgeRef>,
    s: int,
    t: int,
    res: Seq<Seq<Slot>>,
    value: int,
    cut: Seq<bool>,
) -> bool {
    &&& residual_ok(orig, res, es)
    &&& rows_agree(n, orig, res, es)
    &&& forall|w: int|
        0 <= w < n && w != s && w != t ==> #[trigger] net(es, flow_of(orig, res, es), w) == 0
    &&& net(es, flow_of(orig, res, es), s) == value
    &&& is_cut(n, cut, s, t)
    &&& closed(res, cut)
}

/// Push one augmenting path found by breadth-first search, when there is
/// one.  Returns the amount pushed, 0 when the sink is not reachable, and
/// then the side of the source.
fn augment_once(
    adj: &mut Vec<Vec<Slot>>,
    source: usize,
    sink: usize,
    Ghost(n): Ghost<int>,
    Ghost(orig): Ghost<Seq<Seq<Slot>>>,
    Ghost(es): Ghost<Seq<EdgeRef>>,
    Ghost(ow): Ghost<Seq<Seq<(int, bool)>>>,
) -> (out: (u64, Ghost<Seq<bool>>))
    requires
        network_ok(n, orig, es, ow),
        n <= usize::MAX,
        orig.len() == n,
        source < n,
        sink < n,
        source != sink,
        residual_ok(orig, deep(old(adj)@), es),
        rows_agree(n, orig, deep(old(adj)@), es),
    ensures
        residual_ok(orig, deep(final(adj)@), es),
        rows_agree(n, orig, deep(final(adj)@), es),
        out.0 == 0 ==> deep(final(adj)@) == deep(old(adj)@) && is_cut(n, out.1@, source as int, sink as int)
            && closed(deep(final(adj)@), out.1@),
        forall|w: int|
            #![trigger net(es, flow_of(orig, deep(final(adj)@), es), w)]
            net(es, flow_of(orig, deep(final(adj)@), es), w) == net(es, flow_of(orig, deep(old(adj)@), es), w) + (
            if w == source {
                out.0 as int
            } else {
                0
            }) - (if w == sink { out.0 as int } else { 0 }),
{
    let ghost res0 = deep(adj@);
    proof {
        lemma_shape_bounds(n, orig, res0);
    }
    let (visited, parent, Ghost(ord)) = bfs_tree(adj, source, sink, true, Ghost(n));
    if !visited[sink] {
        return (0, Ghost(visited@));
    }
    // Find the bottleneck along the tree path from the sink back to the source.

    let mut bottleneck: u64 = u64::MAX;
    let mut v = sink;
    let ghost mut chain: Seq<usize> = seq![sink];
    let ghost mut steps: Seq<(usize, usize)> = Seq::empty();
    while parent[v].is_some()
        invariant
            tree_ok(res0, visited@, parent@, ord, source as int),
            visited@.len() == n,
            parent@.len() == n,
            ord.len() == n,
            res0 == deep(adj@),
            res0.len() == n,
            (v as int) < n,
            visited@[v as int],
            chain.len() == steps.len() + 1,
            chain[0] == sink,
            chain.last() == v,
            forall|k: int| 0 <= k < chain.len() ==> (#[trigger] chain[k] as int) < n && visited@[chain[k] as int],
            forall|k: int|
                #![trigger steps[k]]
                0 <= k < steps.len() ==> parent@[chain[k] as int] == Some(steps[k]) && steps[k].0 == chain[k + 1]
                    && (steps[k].1 as int) < res0[steps[k].0 as int].len() && res0[steps[k].0 as int][steps[k].1 as int].0
                    == chain[k] && bottleneck <= res0[steps[k].0 as int][steps[k].1 as int].1,
            forall|j: int, k: int| 0 <= j < k < chain.len() ==> ord[#[trigger] chain[j] as int] > ord[#[trigger] chain[k] as int],
            bottleneck > 0,
        decreases ord[v as int],
    {
        let (u, i) = parent[v].unwrap();
        assert(parent@[v as int] == Some((u, i)));
        assert(v != source);
        let c = adj[u][i].1;
        if c < bottleneck {
            bottleneck = c;
        }
        proof {
            steps = steps.push((u, i));
            chain = chain.push(u);
            assert forall|j: int, k: int| 0 <= j < k < chain.len() implies ord[#[trigger] chain[j] as int] > ord[#[trigger] chain[k] as int] by {
                if k == chain.len() - 1 && j < k {
                    if j < k - 1 {
                        assert(ord[chain[j] as int] > ord[chain[k - 1] as int]);
                    }
                }
            }
        }
        v = u;
    }
    assert(v == source);
    if bottleneck == 0 {
        return (0, Ghost(visited@));
    }
    // Push the bottleneck along the same path.

    let b = bottleneck;
    let mut v = sink;
    let ghost mut idx: int = 0;
    while parent[v].is_some()
        invariant
            network_ok(n, orig, es, ow),
            orig.len() == n,
            residual_ok(orig, deep(adj@), es),
            rows_agree(n, orig, deep(adj@), es),
            residual_ok(orig, res0, es),
            tree_ok(res0, visited@, parent@, ord, source as int),
            visited@.len() == n,
            parent@.len() == n,
            0 <= idx < chain.len(),
            v == chain[idx],
            chain.len() == steps.len() + 1,
            chain[0] == sink,
            chain.last() == source,
            forall|k: int| 0 <= k < chain.len() ==> (#[trigger] chain[k] as int) < n && visited@[chain[k] as int],
            forall|k: int|
                #![trigger steps[k]]
                0 <= k < steps.len() ==> parent@[chain[k] as int] == Some(steps[k]) && steps[k].0 == chain[k + 1]
                    && (steps[k].1 as int) < res0[steps[k].0 as int].len() && res0[steps[k].0 as int][steps[k].1 as int].0
                    == chain[k] && b <= res0[steps[k].0 as int][steps[k].1 as int].1,
            forall|j: int, k: int| 0 <= j < k < chain.len() ==> ord[#[trigger] chain[j] as int] > ord[#[trigger] chain[k] as int],
            forall|k: int| idx < k < chain.len() ==> deep(adj@)[#[trigger] chain[k] as int] == res0[chain[k] as int],
            forall|w: int|
                #![trigger net(es, flow_of(orig, deep(adj@), es), w)]
                net(es, flow_of(orig, deep(adj@), es), w) == net(es, flow_of(orig, res0, es), w) + (if w == v {
                    b as int
                } else {
                    0
                }) - (if w == sink { b as int } else { 0 }),
        decreases chain.len() - idx,
    {
        let (u, i) = parent[v].unwrap();
        proof {
            if idx == chain.len() - 1 {
                assert(v == source);
            }
            assert(steps[idx] == (u, i));
            assert(ord[chain[idx] as int] > ord[chain[idx + 1] as int]);
            assert(deep(adj@)[u as int] == res0[u as int]);
            lemma_augment_slot(n, orig, deep(adj@), es, ow, u as int, i as int, b);
            lemma_augment_rows(n, orig, deep(adj@), es, ow, u as int, i as int, b);
        }
        let ghost cur = deep(adj@);
        let rev = adj[u][i].2;
        adj[u][i].1 = adj[u][i].1 - b;
        adj[v][rev].1 = adj[v][rev].1 + b;
        proof {
            let aug = augmented(cur, u as int, i as int, b);
            assert(deep(adj@) =~= aug) by {
                assert forall|w: int| 0 <= w < n implies #[trigger] deep(adj@)[w] =~= aug[w] by {}
            }
            assert forall|k: int| idx + 1 < k < chain.len() implies deep(adj@)[#[trigger] chain[k] as int] == res0[chain[k] as int] by {
                assert(ord[chain[idx] as int] > ord[chain[k] as int]);
                assert(ord[chain[idx + 1] as int] > ord[chain[k] as int]);
                assert(cur[chain[k] as int] == res0[chain[k] as int]);
            }
            idx = idx + 1;
        }
        v = u;
    }
    proof {
        if idx < chain.len() - 1 {
            assert(parent@[chain[idx] as int] == Some(steps[idx]));
        }
    }
    (b, Ghost(visited@))
}

/// Run Edmonds-Karp to the end on a copy of the network.
fn run_edmonds_karp(network: &FlowNetwork, source: usize, sink: usize) -> (out: (
    Vec<Vec<Slot>>,
    u64,
    Ghost<Seq<bool>>,
))
    requires
        network.wf(),
        network.total_capacity() <= u64::MAX,
        source < network.vertices(),
        sink < network.vertices(),
        source != sink,
    ensures
        edmonds_karp_outcome(
            network.vertices(),
            network.slots(),
            network.edge_refs(),
            source as int,
            sink as int,
            deep(out.0@),
            out.1 as int,
            out.2@,
        ),
        out.1 <= network.total_capacity(),
{
    let n = network.vertex_count();
    let ghost orig = network.slots();
    let ghost es = network.edge_refs();
    let ghost ow = network.owners();
    let ghost nn = n as int;
    let oadj = network.adjacency();
    let mut adj = copy_slots(oadj);
    proof {
        lemma_zero_flow(nn, orig, es, ow);
        lemma_rows_agree_zero(nn, orig, es, ow);
        lemma_cap_total_nonneg(caps_of(orig, es), es.len() as int);
    }
    let mut total_flow: u64 = 0;
    let mut done = false;
    let ghost mut cut: Seq<bool> = Seq::empty();
    while !done
        invariant
            network_ok(nn, orig, es, ow),
            orig.len() == nn,
            nn == n,
            source < n,
            sink < n,
            source != sink,
            cap_total(caps_of(orig, es), es.len() as int) <= u64::MAX,
            residual_ok(orig, deep(adj@), es),
            rows_agree(nn, orig, deep(adj@), es),
            forall|w: int|
                0 <= w < nn && w != source && w != sink ==> #[trigger] net(es, flow_of(orig, deep(adj@), es), w)
                    == 0,
            net(es, flow_of(orig, deep(adj@), es), source as int) == total_flow,
            total_flow <= cap_total(caps_of(orig, es), es.len() as int),
            done ==> is_cut(nn, cut, source as int, sink as int) && closed(deep(adj@), cut),
        decreases cap_total(caps_of(orig, es), es.len() as int) - total_flow, (if done { 0int } else { 1 }),
    {
        let ghost res0 = deep(adj@);
        let (pushed, Ghost(side)) = augment_once(&mut adj, source, sink, Ghost(nn), Ghost(orig), Ghost(es), Ghost(ow));
        if pushed == 0 {
            done = true;
            proof {
                cut = side;
            }
        } else {
            proof {
                assert forall|w: int| 0 <= w < nn && w != source && w != sink implies #[trigger] net(
                    es,
                    flow_of(orig, deep(adj@), es),
                    w,
                ) == 0 by {
                    assert(net(es, flow_of(orig, res0, es), w) == 0);
                }
                assert(net(es, flow_of(orig, deep(adj@), es), source as int) == total_flow + pushed);
                lemma_value_le_total(nn, orig, deep(adj@), es, ow, source as int, sink as int);
            }
            total_flow = total_flow + pushed;
        }
    }
    (adj, total_flow, Ghost(cut))
}

/// Compute the maximum flow using the Edmonds-Karp algorithm.
///
/// Uses BFS to find shortest augmenting paths, providing polynomial time bounds.
pub fn edmonds_karp(network: &FlowNetwork, source: usize, sink: usize) -> (flow: u64)
    requires
        network.wf(),
        network.total_capacity() <= u64::MAX,
        source == sink || network.vertices() == 0 || (source < network.vertices() && sink < network.vertices()),
    ensures
        source == sink || network.vertices() == 0 ==> flow == 0,
        flow <= network.total_capacity(),
        !(source == sink || network.vertices() == 0) ==> is_max_flow_value(
            network.vertices(),
            network.edge_refs(),
            network.capacities(),
            source as int,
            sink as int,
            flow as int,
        ) && is_min_cut_value(
            network.vertices(),
            network.edge_refs(),
            network.capacities(),
            source as int,
            sink as int,
            flow as int,
        ),
{
    let n = network.vertex_count();
    if source == sink || n == 0 {
        proof {
            lemma_cap_total_nonneg(network.capacities(), network.edge_refs().len() as int);
        }
        return 0;
    }
    let (adj, total_flow, Ghost(cut)) = run_edmonds_karp(network, source, sink);
    proof {
        law_closed_cut_certifies_max_flow(
            n as int,
            network.slots(),
            deep(adj@),
            network.edge_refs(),
            network.owners(),
            cut,
            source as int,
            sink as int,
        );
    }
    total_flow
}

/// The vertices below `m` that `vis` marks, in increasing order.
pub open spec fn marked_indices(vis: Seq<bool>, m: int) -> Seq<usize>
    decreases m,
{
    if m <= 0 {
        Seq::empty()
    } else {
        marked_indices(vis, m - 1) + (if vis[m - 1] { seq![(m - 1) as usize] } else { Seq::empty() })
    }
}

/// `list` holds, in strictly increasing order, exactly the vertices below
/// `n` that `side` marks.
pub open spec fn lists_marked(list: Seq<usize>, side: Seq<bool>, n: int) -> bool {
    &&& forall|i: int, j: int| 0 <= i < j < list.len() ==> #[trigger] list[i] < #[trigger] list[j]
    &&& forall|i: int| 0 <= i < list.len() ==> (#[trigger] list[i] as int) < n && side[list[i] as int]
    &&& forall|w: int| 0 <= w < n ==> (side[w] <==> #[trigger] list.contains(w as usize))
}

/// The marked indices below `m` are listed in strictly increasing order, each
/// marked index once and nothing else.
pub proof fn law_marked_indices_lists_marked(vis: Seq<bool>, m: int)
    requires
        0 <= m,
        m <= usize::MAX + 1,
    ensures
        lists_marked(marked_indices(vis, m), vis, m),
    decreases m,
{
    let r = marked_indices(vis, m);
    if m > 0 {
        law_marked_indices_lists_marked(vis, m - 1);
        let prev = marked_indices(vis, m - 1);
        let x = (m - 1) as usize;
        if vis[m - 1] {
            assert(r == prev.push(x));
            assert forall|i: int, j: int| 0 <= i < j < r.len() implies #[trigger] r[i] < #[trigger] r[j] by {
                if j < prev.len() {
                    assert(r[i] == prev[i] && r[j] == prev[j]);
                } else {
                    assert(r[i] == prev[i]);
                    assert((prev[i] as int) < m - 1);
                }
            }
            assert forall|i: int| 0 <= i < r.len() implies (#[trigger] r[i] as int) < m && vis[r[i] as int] by {
                if i < prev.len() {
                    assert(r[i] == prev[i]);
                }
            }
            assert forall|w: int| 0 <= w < m implies (vis[w] <==> #[trigger] r.contains(w as usize)) by {
                if w < m - 1 {
                    if prev.contains(w as usize) {
                        let i = choose|i: int| 0 <= i < prev.len() && prev[i] == w as usize;
                        assert(r[i] == w as usize);
                    }
                    if r.contains(w as usize) {
                        let i = choose|i: int| 0 <= i < r.len() && r[i] == w as usize;
                        assert(i < prev.len());
                        assert(prev[i] == w as usize);
                    }
                } else {
                    assert(r[prev.len() as int] == x);
                }
            }
        } else {
            assert(r =~= prev);
            assert forall|w: int| 0 <= w < m implies (vis[w] <==> #[trigger] r.contains(w as usize)) by {
                if w == m - 1 && r.contains(w as usize) {
                    let i = choose|i: int| 0 <= i < r.len() && r[i] == w as usize;
                    assert((prev[i] as int) < m - 1);
                }
            }
        }
    }
}

/// The vertices that `vis` marks, in increasing order.
pub(crate) fn collect_marked(vis: &Vec<bool>) -> (out: Vec<usize>)
    ensures
        out@ == marked_indices(vis@, vis@.len() as int),
        lists_marked(out@, vis@, vis@.len() as int),
{
    let mut out: Vec<usize> = Vec::new();
    let mut i: usize = 0;
    while i < vis.len()
        invariant
            i <= vis@.len(),
            out@ == marked_indices(vis@, i as int),
        decreases vis@.len() - i,
    {
        if vis[i] {
            out.push(i);
        }
        i = i + 1;
        assert(out@ =~= marked_indices(vis@, i as int));
    }
    proof {
        law_marked_indices_lists_marked(vis@, vis@.len() as int);
    }
    out
}

/// The side of the source after a run of Edmonds-Karp: exactly the vertices
/// reachable from the source in the final residual network; it is a minimum
/// cut.
pub open spec fn min_cut_side(
    n: int,
    orig: Seq<Seq<Slot>>,
    es: Seq<EdgeRef>,
    s: int,
    t: int,
    res: Seq<Seq<Slot>>,
    value: int,
    cut: Seq<bool>,
) -> bool {
    &&& edmonds_karp_outcome(n, orig, es, s, t, res, value, cut)
    &&& forall|w: int| 0 <= w < n ==> cut[w] == #[trigger] reachable(res, s, w)
    &&& cut_cap(es, caps_of(orig, es), cut) == value
}

/// Which vertices `s` reaches in `res`.
pub open spec fn reach_side(res: Seq<Seq<Slot>>, s: int) -> Seq<bool> {
    Seq::new(res.len(), |w: int| reachable(res, s, w))
}

/// A marked vertex below `m` is among the marked indices.
pub proof fn lemma_marked_contains(vis: Seq<bool>, m: int, x: int)
    requires
        0 <= x < m,
        x <= usize::MAX,
        vis[x],
    ensures
        marked_indices(vis, m).contains(x as usize),
    decreases m,
{
    if x < m - 1 {
        lemma_marked_contains(vis, m - 1, x);
        let prev = marked_indices(vis, m - 1);
        let i = choose|i: int| 0 <= i < prev.len() && prev[i] == x as usize;
        assert(marked_indices(vis, m)[i] == x as usize);
    } else {
        let prev = marked_indices(vis, m - 1);
        assert(marked_indices(vis, m)[prev.len() as int] == x as usize);
    }
}

/// The vertices that `vis` does not mark, in increasing order.
pub(crate) fn collect_unmarked(vis: &Vec<bool>) -> (out: Vec<usize>)
    ensures
        out@ == marked_indices(Seq::new(vis@.len(), |w: int| !vis@[w]), vis@.len() as int),
        lists_marked(out@, Seq::new(vis@.len(), |w: int| !vis@[w]), vis@.len() as int),
{
    let ghost neg = Seq::new(vis@.len(), |w: int| !vis@[w]);
    let mut out: Vec<usize> = Vec::new();
    let mut i: usize = 0;
    while i < vis.len()
        invariant
            i <= vis@.len(),
            neg == Seq::new(vis@.len(), |w: int| !vis@[w]),
            out@ == marked_indices(neg, i as int),
        decreases vis@.len() - i,
    {
        if !vis[i] {
            out.push(i);
        }
        i = i + 1;
        assert(out@ =~= marked_indices(neg, i as int));
    }
    proof {
        law_marked_indices_lists_marked(neg, vis@.len() as int);
    }
    out
}

/// Find the minimum cut using Edmonds-Karp.
///
/// Returns the reachable set from source in the residual graph after max flow.
pub fn min_cut_edmonds_karp(network: &FlowNetwork, source: usize, sink: usize) -> (out: (Vec<usize>, u64))
    requires
        network.wf(),
        network.total_capacity() <= u64::MAX,
        source == sink || network.vertices() == 0 || (source < network.vertices() && sink < network.vertices()),
    ensures
        network.vertices() == 0 || (source == sink && source >= network.vertices()) ==> out.0@.len() == 0 && out.1
            == 0,
        source == sink && source < network.vertices() ==> {
            &&& out.1 == 0
            &&& out.0@ == marked_indices(reach_side(network.slots(), source as int), network.vertices())
            &&& lists_marked(out.0@, reach_side(network.slots(), source as int), network.vertices())
            &&& out.0@.contains(source)
        },
        !(source == sink || network.vertices() == 0) ==> {
            &&& exists|res: Seq<Seq<Slot>>, cut: Seq<bool>|
                #[trigger] min_cut_side(
                    network.vertices(),
                    network.slots(),
                    network.edge_refs(),
                    source as int,
                    sink as int,
                    res,
                    out.1 as int,
                    cut,
                ) && out.0@ == marked_indices(cut, network.vertices()) && lists_marked(
                    out.0@,
                    reach_side(res, source as int),
                    network.vertices(),
                )
            &&& is_max_flow_value(
                network.vertices(),
                network.edge_refs(),
                network.capacities(),
                source as int,
                sink as int,
                out.1 as int,
            )
            &&& is_min_cut_value(
                network.vertices(),
                network.edge_refs(),
                network.capacities(),
                source as int,
                sink as int,
                out.1 as int,
            )
        },
{
    let n = network.vertex_count();
    if n == 0 || (source == sink && source >= n) {
        return (Vec::new(), 0);
    }
    if source == sink {
        // No flow moves: the side is what the source reaches in the network itself.
        let adj = copy_slots(network.adjacency());
        let ghost orig = network.slots();
        proof {
            assert(network_ok(n as int, orig, network.edge_refs(), network.owners()));
        }
        let (visited, parent, Ghost(ord)) = bfs_tree(&adj, source, sink, false, Ghost(n as int));
        proof {
            assert(deep(adj@) == orig);
            assert forall|w: int| 0 <= w < n implies visited@[w] == #[trigger] reachable(orig, source as int, w) by {
                if visited@[w] {
                    lemma_tree_reachable(orig, visited@, parent@, ord, source as int, w);
                }
                if reachable(orig, source as int, w) {
                    lemma_closed_holds_reachable(orig, visited@, source as int, w);
                }
            }
            assert(visited@ =~= reach_side(orig, source as int));
            lemma_marked_contains(visited@, n as int, source as int);
        }
        let side = collect_marked(&visited);
        return (side, 0);
    }
    let (adj, total_flow, Ghost(cut)) = run_edmonds_karp(network, source, sink);
    let ghost res = deep(adj@);
    let ghost orig = network.slots();
    proof {
        lemma_shape_bounds(n as int, orig, res);
        law_closed_cut_certifies_max_flow(
            n as int,
            orig,
            res,
            network.edge_refs(),
            network.owners(),
            cut,
            source as int,
            sink as int,
        );
    }
    // Breadth-first search in the residual network.
    let (visited, parent, Ghost(ord)) = bfs_tree(&adj, source, sink, false, Ghost(n as int));
    proof {
        if visited@[sink as int] {
            lemma_tree_reachable(res, visited@, parent@, ord, source as int, sink as int);
            lemma_closed_holds_reachable(res, cut, source as int, sink as int);
        }
        assert forall|w: int| 0 <= w < n implies visited@[w] == #[trigger] reachable(res, source as int, w) by {
            if visited@[w] {
                lemma_tree_reachable(res, visited@, parent@, ord, source as int, w);
            }
            if reachable(res, source as int, w) {
                lemma_closed_holds_reachable(res, visited@, source as int, w);
            }
        }
        law_closed_cut_certifies_max_flow(
            n as int,
            orig,
            res,
            network.edge_refs(),
            network.owners(),
            visited@,
            source as int,
            sink as int,
        );
        assert(min_cut_side(n as int, orig, network.edge_refs(), source as int, sink as int, res, total_flow as int, visited@));
        assert(visited@ =~= reach_side(res, source as int));
    }
    let reachable = collect_marked(&visited);
    (reachable, total_flow)
}

/// The side that `min_cut_edmonds_karp` reports on a nontrivial query: a
/// vertex is listed exactly when the source reaches it in the residual network
/// that Edmonds-Karp leaves, the list is strictly increasing, and its cut has
/// the capacity of a minimum cut, the reported value.
pub proof fn law_min_cut_edmonds_karp_side(
    network: FlowNetwork,
    s: usize,
    t: usize,
    side: Seq<usize>,
    value: int,
)
    requires
        network.wf(),
        s != t,
        network.vertices() > 0,
        exists|res: Seq<Seq<Slot>>, cut: Seq<bool>|
            #[trigger] min_cut_side(
                network.vertices(),
                network.slots(),
                network.edge_refs(),
                s as int,
                t as int,
                res,
                value,
                cut,
            ) && side == marked_indices(cut, network.vertices()) && lists_marked(
                side,
                reach_side(res, s as int),
                network.vertices(),
            ),
        is_min_cut_value(network.vertices(), network.edge_refs(), network.capacities(), s as int, t as int, value),
    ensures
        exists|res: Seq<Seq<Slot>>|
            #[trigger] residual_ok(network.slots(), res, network.edge_refs()) && {
                &&& forall|w: int|
                    0 <= w < network.vertices() ==> (#[trigger] side.contains(w as usize) <==> reachable(res, s as int, w))
                &&& forall|i: int, j: int| 0 <= i < j < side.len() ==> #[trigger] side[i] < #[trigger] side[j]
                &&& forall|i: int| 0 <= i < side.len() ==> (#[trigger] side[i] as int) < network.vertices()
                &&& cut_cap(network.edge_refs(), network.capacities(), reach_side(res, s as int)) == value
                &&& is_min_cut_value(network.vertices(), network.edge_refs(), network.capacities(), s as int, t as int, value)
            },
{
    let n = network.vertices();
    let (res, cut) = choose|res: Seq<Seq<Slot>>, cut: Seq<bool>|
        #[trigger] min_cut_side(n, network.slots(), network.edge_refs(), s as int, t as int, res, value, cut)
            && side == marked_indices(cut, n) && lists_marked(side, reach_side(res, s as int), n);
    let rs = reach_side(res, s as int);
    assert(residual_ok(network.slots(), res, network.edge_refs()));
    assert(res.len() == n);
    assert forall|w: int| 0 <= w < n implies (#[trigger] side.contains(w as usize) <==> reachable(res, s as int, w)) by {
        assert(rs[w] == reachable(res, s as int, w));
    }
    assert forall|w: int| 0 <= w < n implies rs[w] == cut[w] by {
        assert(cut[w] == reachable(res, s as int, w));
    }
    assert(rs =~= cut) by {
        assert(is_cut(n, cut, s as int, t as int));
    }
}

/// Ford-Fulkerson and Edmonds-Karp compute the same maximum flow value on
/// every network: `v1` is a value that Ford-Fulkerson may report, `v2` one that
/// Edmonds-Karp may report.
pub proof fn law_ford_fulkerson_agrees_with_edmonds_karp(
    network: FlowNetwork,
    source: usize,
    sink: usize,
    v1: int,
    flows: Seq<(usize, usize, i64)>,
    v2: int,
)
    requires
        network.wf(),
        max_flow_result(network, source, sink, v1, flows),
        source == sink || network.vertices() == 0 ==> v2 == 0,
        !(source == sink || network.vertices() == 0) ==> is_max_flow_value(
            network.vertices(),
            network.edge_refs(),
            network.capacities(),
            source as int,
            sink as int,
            v2,
        ),
    ensures
        v1 == v2,
{
    let n = network.vertices();
    let es = network.edge_refs();
    let caps = network.capacities();
    let s = source as int;
    let t = sink as int;
    if !(source == sink || n == 0) {
        let res = choose|res: Seq<Seq<Slot>>|
            ford_fulkerson_outcome(n, network.slots(), es, source, sink, v1, flows, res);
        assert(is_max_flow_value(n, es, caps, s, t, v1));
        let f1 = choose|f: Seq<int>| is_flow(n, es, caps, f, s, t) && net(es, f, s) == v1;
        let f2 = choose|f: Seq<int>| is_flow(n, es, caps, f, s, t) && net(es, f, s) == v2;
        assert(net(es, f1, s) <= v2);
        assert(net(es, f2, s) <= v1);
    }
}

/// Compute the edge connectivity between source and sink.
pub fn edge_connectivity(network: &FlowNetwork, source: usize, sink: usize) -> (c: usize)
    requires
        network.wf(),
        network.total_capacity() <= usize::MAX,
        source == sink || network.vertices() == 0 || (source < network.vertices() && sink < network.vertices()),
    ensures
        source == sink || network.vertices() == 0 ==> c == 0,
        !(source == sink || network.vertices() == 0) ==> is_max_flow_value(
            network.vertices(),
            network.edge_refs(),
            network.capacities(),
            source as int,
            sink as int,
            c as int,
        ),
{
    let flow = edmonds_karp(network, source, sink);
    flow as usize
}

} // verus!
