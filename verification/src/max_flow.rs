//! Ford-Fulkerson maximum flow algorithm using DFS augmenting paths.
//!
//! Computes the maximum flow in a flow network using the classic
//! Ford-Fulkerson method with DFS-based path augmentation.
use vstd::prelude::*;

use crate::flow_spec::{
    augmented, bounds_ok, cap_total, caps_of, closed, count_false, cut_cap, deep, edge_slots_ok, edges_ok, lemma_flow_of_bounds,
    flow_of, is_cut, lemma_closed_holds_reachable, lemma_shape_bounds, is_max_flow_value, is_min_cut_value, law_closed_cut_certifies_max_flow, lemma_augment_slot,
    lemma_count_false_mono, lemma_cap_total_nonneg, lemma_zero_flow, lemma_augment_rows,
    lemma_rows_agree_zero, rows_agree, lemma_slots_bounded, lemma_value_le_total, net,
    network_ok, reachable, residual_ok, same_shape, is_walk, walk_step, EdgeRef, Slot,
};
use crate::edmonds_karp::{bfs_tree, collect_marked, collect_unmarked, lemma_tree_reachable, lists_marked, marked_indices, reach_side};
use crate::{all_false, copy_slots, FlowNetwork};

verus! {

/// Slots of a vertex in `vis`, or leading to one, are the same in `a` and `b`.
pub open spec fn unchanged_near(vis: Seq<bool>, a: Seq<Seq<Slot>>, b: Seq<Seq<Slot>>) -> bool {
    forall|w: int, j: int|
        #![trigger b[w][j]]
        0 <= w < a.len() && 0 <= j < a[w].len() && (vis[w] || vis[a[w][j].0 as int]) ==> b[w][j] == a[w][j]
}

/// Every vertex marked in `vis` but not in `vis0` has all its slots with
/// capacity left leading to marked vertices.
pub open spec fn closed_new(vis0: Seq<bool>, vis: Seq<bool>, res: Seq<Seq<Slot>>) -> bool {
    forall|w: int, j: int|
        #![trigger res[w][j]]
        0 <= w < res.len() && 0 <= j < res[w].len() && vis[w] && !vis0[w] && res[w][j].1 > 0 ==> vis[res[w][j].0 as int]
}

/// `vis` only has more marks than `vis0`.
pub open spec fn grows(vis0: Seq<bool>, vis: Seq<bool>) -> bool {
    &&& vis.len() == vis0.len()
    &&& forall|w: int| #![trigger vis[w]] 0 <= w < vis0.len() && vis0[w] ==> vis[w]
}

/// The residual network after pushing `amt` along every slot of the walk
/// `p` through the slots `q`.
pub open spec fn augment_path(res: Seq<Seq<Slot>>, p: Seq<int>, q: Seq<int>, amt: u64) -> Seq<Seq<Slot>>
    decreases q.len(),
{
    if q.len() == 0 {
        res
    } else {
        augmented(augment_path(res, p.drop_first(), q.drop_first(), amt), p[0], q[0], amt)
    }
}

/// `p`, through the slots `q`, is a simple path from `u` to `sink` in
/// `res` through vertices unmarked in `vis`, every slot of it holding at
/// least `amt`.
pub open spec fn dfs_path(res: Seq<Seq<Slot>>, vis: Seq<bool>, u: int, sink: int, p: Seq<int>, q: Seq<int>, amt: int) -> bool {
    &&& is_walk(res, p, q)
    &&& p[0] == u
    &&& p.last() == sink
    &&& p.no_duplicates()
    &&& forall|k: int| 0 <= k < p.len() ==> !vis[#[trigger] p[k]]
    &&& forall|k: int| 0 <= k < q.len() ==> #[trigger] res[p[k]][q[k]].1 >= amt
}

/// Push flow along one path from `u` to `sink` found by depth-first search
/// through unvisited vertices, and return the amount pushed (0 when no path
/// was found, as when the sink is already visited).
fn dfs_augment(
    adj: &mut Vec<Vec<(usize, u64, usize)>>,
    u: usize,
    sink: usize,
    min_cap: u64,
    visited: &mut Vec<bool>,
    Ghost(orig): Ghost<Seq<Seq<Slot>>>,
    Ghost(es): Ghost<Seq<EdgeRef>>,
    Ghost(ow): Ghost<Seq<Seq<(int, bool)>>>,
) -> (pushed: u64)
    requires
        bounds_ok(orig.len() as int, orig),
        edges_ok(orig.len() as int, orig, es, ow),
        residual_ok(orig, deep(old(adj)@), es),
        rows_agree(orig.len() as int, orig, deep(old(adj)@), es),
        old(visited)@.len() == orig.len(),
        u < orig.len(),
        sink < orig.len(),
        !old(visited)@[u as int],
        min_cap > 0,
    ensures
        residual_ok(orig, deep(final(adj)@), es),
        rows_agree(orig.len() as int, orig, deep(final(adj)@), es),
        grows(old(visited)@, final(visited)@),
        !old(visited)@[sink as int] ==> !final(visited)@[sink as int],
        old(visited)@[sink as int] ==> pushed == 0,
        unchanged_near(old(visited)@, deep(old(adj)@), deep(final(adj)@)),
        pushed <= min_cap,
        pushed == 0 ==> {
            &&& deep(final(adj)@) == deep(old(adj)@)
            &&& final(visited)@[u as int]
            &&& closed_new(old(visited)@, final(visited)@, deep(old(adj)@))
        },
        pushed > 0 ==> exists|p: Seq<int>, q: Seq<int>|
            #[trigger] dfs_path(deep(old(adj)@), old(visited)@, u as int, sink as int, p, q, pushed as int)
                && deep(final(adj)@) == augment_path(deep(old(adj)@), p, q, pushed),
        pushed > 0 ==> forall|w: int|
            #![trigger net(es, flow_of(orig, deep(final(adj)@), es), w)]
            net(es, flow_of(orig, deep(final(adj)@), es), w) == net(es, flow_of(orig, deep(old(adj)@), es), w)
                + (if w == u { pushed as int } else { 0 }) - (if w == sink { pushed as int } else { 0 }),
    decreases count_false(old(visited)@, old(visited)@.len() as int),
{
    let ghost n = orig.len() as int;
    if u == sink {
        proof {
            let p = seq![u as int];
            let q = Seq::<int>::empty();
            assert(is_walk(deep(adj@), p, q));
            assert(dfs_path(deep(adj@), visited@, u as int, sink as int, p, q, min_cap as int));
        }
        return min_cap;
    }
    let ghost vis0 = visited@;
    let ghost res0 = deep(adj@);
    visited.set(u, true);
    let deg = adj[u].len();
    assert(deg == res0[u as int].len());
    let mut i: usize = 0;
    while i < deg
        invariant
            bounds_ok(n, orig),
            edges_ok(n, orig, es, ow),
            residual_ok(orig, res0, es),
            rows_agree(n, orig, res0, es),
            n == orig.len(),
            u < n,
            sink < n,
            u != sink,
            min_cap > 0,
            vis0.len() == n,
            !vis0[u as int],
            vis0 == old(visited)@,
            res0 == deep(old(adj)@),
            deg == res0[u as int].len(),
            i <= deg,
            deep(adj@) == res0,
            grows(vis0, visited@),
            visited@[u as int],
            !vis0[sink as int] ==> !visited@[sink as int],
            forall|w: int, j: int|
                #![trigger res0[w][j]]
                0 <= w < n && 0 <= j < res0[w].len() && w != u && visited@[w] && !vis0[w] && res0[w][j].1 > 0
                    ==> visited@[res0[w][j].0 as int],
            forall|j: int| 0 <= j < i && #[trigger] res0[u as int][j].1 > 0 ==> visited@[res0[u as int][j].0 as int],
        decreases deg - i,
    {
        let (v, cap, rev) = adj[u][i];
        assert(res0[u as int][i as int] == (v, cap, rev));
        assert((v as int) < n);
        if cap > 0 && !visited[v] {
            let next = if min_cap < cap { min_cap } else { cap };
            let ghost vis_c = visited@;
            proof {
                lemma_count_false_mono(vis0, visited@, n, u as int);
            }
            let pushed = dfs_augment(adj, v, sink, next, visited, Ghost(orig), Ghost(es), Ghost(ow));
            if pushed > 0 {
                let ghost res_c = deep(adj@);
                let ghost (p1, q1) = choose|p1: Seq<int>, q1: Seq<int>|
                    #[trigger] dfs_path(res0, vis_c, v as int, sink as int, p1, q1, pushed as int) && res_c
                        == augment_path(res0, p1, q1, pushed);
                let ghost p = seq![u as int] + p1;
                let ghost q = seq![i as int] + q1;
                proof {
                    assert(p.drop_first() =~= p1);
                    assert(q.drop_first() =~= q1);
                    assert forall|k: int| 0 <= k < q.len() implies #[trigger] walk_step(res0, p, q, k) by {
                        if k > 0 {
                            assert(walk_step(res0, p1, q1, k - 1));
                            assert(p[k] == p1[k - 1] && p[k + 1] == p1[k] && q[k] == q1[k - 1]);
                        } else {
                            assert(p[1] == p1[0]);
                        }
                    }
                    assert forall|k: int| 0 <= k < p.len() implies !vis0[#[trigger] p[k]] by {
                        if k > 0 {
                            assert(p[k] == p1[k - 1]);
                            assert(!vis_c[p1[k - 1]]);
                            if k - 1 < q1.len() {
                                assert(walk_step(res0, p1, q1, k - 1));
                            }
                            assert(0 <= p1[k - 1] < n);
                            assert(vis0[p1[k - 1]] ==> vis_c[p1[k - 1]]);
                        }
                    }
                    assert forall|k: int| 0 <= k < q.len() implies #[trigger] res0[p[k]][q[k]].1 >= pushed by {
                        if k > 0 {
                            assert(p[k] == p1[k - 1] && q[k] == q1[k - 1]);
                            assert(res0[p1[k - 1]][q1[k - 1]].1 >= pushed);
                        }
                    }
                    assert forall|a: int, b: int| 0 <= a < p.len() && 0 <= b < p.len() && a != b implies p[a] != p[b] by {
                        if a > 0 && b > 0 {
                            assert(p[a] == p1[a - 1] && p[b] == p1[b - 1]);
                        } else if a == 0 {
                            assert(p[b] == p1[b - 1]);
                            assert(!vis_c[p1[b - 1]]);
                        } else {
                            assert(p[a] == p1[a - 1]);
                            assert(!vis_c[p1[a - 1]]);
                        }
                    }
                    assert(p.last() == p1.last());
                }
                proof {
                    assert(vis_c[u as int]);
                    assert(res_c[u as int][i as int] == res0[u as int][i as int]);
                    lemma_augment_slot(n, orig, res_c, es, ow, u as int, i as int, pushed);
                    lemma_augment_rows(n, orig, res_c, es, ow, u as int, i as int, pushed);
                }
                adj[u][i].1 = adj[u][i].1 - pushed;
                adj[v][rev].1 = adj[v][rev].1 + pushed;
                proof {
                    let aug = augmented(res_c, u as int, i as int, pushed);
                    assert(deep(adj@) =~= aug) by {
                        assert forall|w: int| 0 <= w < n implies #[trigger] deep(adj@)[w] =~= aug[w] by {}
                    }
                    assert(res0[v as int][rev as int].0 == u);
                    assert(unchanged_near(vis0, res0, aug)) by {
                        assert forall|w: int, j: int|
                            0 <= w < res0.len() && 0 <= j < res0[w].len() && (vis0[w] || vis0[res0[w][j].0 as int])
                            implies #[trigger] aug[w][j] == res0[w][j] by {
                            assert(res_c[w][j] == res0[w][j]);
                            assert(vis_c[w] || vis_c[res0[w][j].0 as int]);
                        }
                    }
                    assert(grows(vis0, visited@)) by {
                        assert forall|w: int| 0 <= w < vis0.len() && vis0[w] implies #[trigger] visited@[w] by {
                            assert(vis_c[w]);
                        }
                    }
                    assert(vis0 == old(visited)@);
                    assert(res0 == deep(old(adj)@));
                    assert(is_walk(res0, p, q));
                    assert(dfs_path(res0, vis0, u as int, sink as int, p, q, pushed as int));
                    assert(augment_path(res0, p, q, pushed) == aug);
                }
                return pushed;
            }
            proof {
                assert(visited@[v as int]);
                assert forall|w: int, j: int|
                    0 <= w < n && 0 <= j < res0[w].len() && w != u && visited@[w] && !vis0[w] && res0[w][j].1 > 0
                    implies visited@[#[trigger] res0[w][j].0 as int] by {
                    if vis_c[w] {
                        assert(vis_c[res0[w][j].0 as int]);
                    }
                }
            }
        }
        i = i + 1;
    }
    proof {
        assert forall|w: int, j: int|
            0 <= w < res0.len() && 0 <= j < res0[w].len() && visited@[w] && !vis0[w] && res0[w][j].1 > 0
            implies visited@[#[trigger] res0[w][j].0 as int] by {
            if w == u {
                assert(res0[u as int][j].1 > 0);
            }
        }
    }
    0
}

/// Result of a max flow computation.
#[derive(Debug, Clone)]
pub struct MaxFlowResult {
    /// Maximum flow value.
    pub max_flow: u64,
    /// Flow on each edge (from, to, flow).
    pub flows: Vec<(usize, usize, i64)>,
}

/// The entries reported for the first `m` slots of vertex `u`: for each slot
/// `(v, c, _)` of the network, `c` minus the residual capacity of the same
/// slot, when that difference is not 0 (a reverse slot reports its edge's
/// flow negated).
pub open spec fn flow_row(orow: Seq<Slot>, rrow: Seq<Slot>, u: usize, m: int) -> Seq<(usize, usize, i64)>
    decreases m,
{
    if m <= 0 {
        Seq::empty()
    } else {
        let prev = flow_row(orow, rrow, u, m - 1);
        let f = orow[m - 1].1 - rrow[m - 1].1;
        if f != 0 {
            prev.push((u, orow[m - 1].0, f as i64))
        } else {
            prev
        }
    }
}

/// The entries reported for the first `m` vertices, vertex by vertex.
pub open spec fn flow_list(orig: Seq<Seq<Slot>>, res: Seq<Seq<Slot>>, m: int) -> Seq<(usize, usize, i64)>
    decreases m,
{
    if m <= 0 {
        Seq::empty()
    } else {
        flow_list(orig, res, m - 1) + flow_row(orig[m - 1], res[m - 1], (m - 1) as usize, orig[m - 1].len() as int)
    }
}

/// The entry `e` reports an edge that carries flow under `f`: it is
/// `(from, to, f_k)` for the edge's forward slot or `(to, from, -f_k)` for its
/// reverse slot.
pub open spec fn edge_entry(es: Seq<EdgeRef>, f: Seq<int>, e: (usize, usize, i64)) -> bool {
    exists|k: int|
        0 <= k < es.len() && #[trigger] f[k] != 0 && ((e.0 as int == es[k].from && e.1 as int == es[k].to && e.2 as int
            == f[k]) || (e.0 as int == es[k].to && e.1 as int == es[k].from && e.2 as int == -f[k]))
}

/// `flows` reports the flow `f` edge by edge: every edge that carries flow
/// appears as `(from, to, f_k)` and as `(to, from, -f_k)`, and every entry is
/// one of these.
pub open spec fn reports_edge_flows(es: Seq<EdgeRef>, f: Seq<int>, flows: Seq<(usize, usize, i64)>) -> bool {
    &&& forall|k: int|
        0 <= k < es.len() && #[trigger] f[k] != 0 ==> flows.contains(
            (es[k].from as usize, es[k].to as usize, f[k] as i64),
        ) && flows.contains((es[k].to as usize, es[k].from as usize, (-f[k]) as i64))
    &&& forall|j: int| 0 <= j < flows.len() ==> #[trigger] edge_entry(es, f, flows[j])
}

/// What slot `j` of `u` has lost.
pub open spec fn slot_loss(orig: Seq<Seq<Slot>>, res: Seq<Seq<Slot>>, u: int, j: int) -> int {
    orig[u][j].1 - res[u][j].1
}

/// The entry that slot `j` of `u`'s row reports.
pub open spec fn row_entry(orow: Seq<Slot>, rrow: Seq<Slot>, u: usize, j: int) -> (usize, usize, i64) {
    (u, orow[j].0, (orow[j].1 - rrow[j].1) as i64)
}

/// `e` is the entry of one of the first `m` slots of `u`'s row that report something.
pub open spec fn row_sourced(orow: Seq<Slot>, rrow: Seq<Slot>, u: usize, m: int, e: (usize, usize, i64)) -> bool {
    exists|j: int| 0 <= j < m && orow[j].1 - rrow[j].1 != 0 && e == #[trigger] row_entry(orow, rrow, u, j)
}

proof fn lemma_flow_row_slots(orow: Seq<Slot>, rrow: Seq<Slot>, u: usize, m: int)
    requires
        0 <= m <= orow.len(),
    ensures
        forall|j: int|
            0 <= j < m && orow[j].1 - rrow[j].1 != 0 ==> flow_row(orow, rrow, u, m).contains(
                #[trigger] row_entry(orow, rrow, u, j),
            ),
        forall|i: int|
            0 <= i < flow_row(orow, rrow, u, m).len() ==> #[trigger] row_sourced(
                orow,
                rrow,
                u,
                m,
                flow_row(orow, rrow, u, m)[i],
            ),
    decreases m,
{
    if m > 0 {
        lemma_flow_row_slots(orow, rrow, u, m - 1);
        let prev = flow_row(orow, rrow, u, m - 1);
        let cur = flow_row(orow, rrow, u, m);
        let f = orow[m - 1].1 - rrow[m - 1].1;
        assert forall|i: int| 0 <= i < prev.len() implies #[trigger] row_sourced(orow, rrow, u, m, prev[i]) by {
            assert(row_sourced(orow, rrow, u, m - 1, prev[i]));
            let j = choose|j: int| 0 <= j < m - 1 && orow[j].1 - rrow[j].1 != 0 && prev[i] == #[trigger] row_entry(orow, rrow, u, j);
            assert(prev[i] == row_entry(orow, rrow, u, j));
        }
        if f != 0 {
            let e = row_entry(orow, rrow, u, m - 1);
            assert(cur == prev.push(e));
            assert forall|j: int| 0 <= j < m && orow[j].1 - rrow[j].1 != 0 implies cur.contains(
                #[trigger] row_entry(orow, rrow, u, j),
            ) by {
                if j < m - 1 {
                    let i = choose|i: int| 0 <= i < prev.len() && prev[i] == row_entry(orow, rrow, u, j);
                    assert(cur[i] == prev[i]);
                } else {
                    assert(cur[prev.len() as int] == e);
                }
            }
            assert forall|i: int| 0 <= i < cur.len() implies #[trigger] row_sourced(orow, rrow, u, m, cur[i]) by {
                if i < prev.len() {
                    assert(cur[i] == prev[i]);
                    assert(row_sourced(orow, rrow, u, m, prev[i]));
                } else {
                    assert(cur[i] == row_entry(orow, rrow, u, m - 1));
                }
            }
        } else {
            assert(cur == prev);
            assert forall|i: int| 0 <= i < cur.len() implies #[trigger] row_sourced(orow, rrow, u, m, cur[i]) by {
                assert(row_sourced(orow, rrow, u, m, prev[i]));
            }
        }
    }
}

/// The entry that slot `j` of vertex `u` reports.
pub open spec fn slot_entry(orig: Seq<Seq<Slot>>, res: Seq<Seq<Slot>>, u: int, j: int) -> (usize, usize, i64) {
    (u as usize, orig[u][j].0, slot_loss(orig, res, u, j) as i64)
}

/// `e` is the entry of a slot of one of the first `m` vertices that reports something.
pub open spec fn list_sourced(orig: Seq<Seq<Slot>>, res: Seq<Seq<Slot>>, m: int, e: (usize, usize, i64)) -> bool {
    exists|u: int, j: int|
        0 <= u < m && 0 <= j < orig[u].len() && slot_loss(orig, res, u, j) != 0 && e == #[trigger] slot_entry(
            orig,
            res,
            u,
            j,
        )
}

proof fn lemma_flow_list_slots(orig: Seq<Seq<Slot>>, res: Seq<Seq<Slot>>, m: int)
    requires
        0 <= m <= orig.len(),
        m <= usize::MAX + 1,
    ensures
        forall|u: int, j: int|
            0 <= u < m && 0 <= j < orig[u].len() && slot_loss(orig, res, u, j) != 0 ==> flow_list(orig, res, m).contains(
                #[trigger] slot_entry(orig, res, u, j),
            ),
        forall|i: int|
            0 <= i < flow_list(orig, res, m).len() ==> #[trigger] list_sourced(orig, res, m, flow_list(orig, res, m)[i]),
    decreases m,
{
    if m > 0 {
        lemma_flow_list_slots(orig, res, m - 1);
        let a = flow_list(orig, res, m - 1);
        let w = m - 1;
        let row = flow_row(orig[w], res[w], w as usize, orig[w].len() as int);
        lemma_flow_row_slots(orig[w], res[w], w as usize, orig[w].len() as int);
        let fl = flow_list(orig, res, m);
        assert(fl == a + row);
        assert forall|u: int, j: int| 0 <= u < m && 0 <= j < orig[u].len() && slot_loss(orig, res, u, j) != 0 implies fl.contains(
            #[trigger] slot_entry(orig, res, u, j),
        ) by {
            let e = slot_entry(orig, res, u, j);
            if u < m - 1 {
                let i = choose|i: int| 0 <= i < a.len() && a[i] == e;
                assert(fl[i] == a[i]);
            } else {
                assert(e == row_entry(orig[w], res[w], w as usize, j));
                let i = choose|i: int| 0 <= i < row.len() && row[i] == e;
                assert(fl[a.len() + i] == row[i]);
            }
        }
        assert forall|i: int| 0 <= i < fl.len() implies #[trigger] list_sourced(orig, res, m, fl[i]) by {
            if i < a.len() {
                assert(fl[i] == a[i]);
                assert(list_sourced(orig, res, m - 1, a[i]));
                let (u, j) = choose|u: int, j: int|
                    0 <= u < m - 1 && 0 <= j < orig[u].len() && slot_loss(orig, res, u, j) != 0 && a[i]
                        == #[trigger] slot_entry(orig, res, u, j);
                assert(fl[i] == slot_entry(orig, res, u, j));
            } else {
                let ii = i - a.len();
                assert(fl[i] == row[ii]);
                assert(row_sourced(orig[w], res[w], w as usize, orig[w].len() as int, row[ii]));
                let j = choose|j: int|
                    0 <= j < orig[w].len() && orig[w][j].1 - res[w][j].1 != 0 && row[ii] == #[trigger] row_entry(
                        orig[w],
                        res[w],
                        w as usize,
                        j,
                    );
                assert(slot_entry(orig, res, w, j) == row_entry(orig[w], res[w], w as usize, j));
                assert(fl[i] == slot_entry(orig, res, w, j));
            }
        }
    }
}

/// The report of Ford-Fulkerson states the flow edge by edge: every edge that
/// carries flow in the residual network `res` appears with its flow, from its
/// tail to its head, and negated from its head to its tail; every entry is
/// one of these.
pub proof fn law_reported_flows_are_edge_flows(
    n: int,
    orig: Seq<Seq<Slot>>,
    res: Seq<Seq<Slot>>,
    es: Seq<EdgeRef>,
    ow: Seq<Seq<(int, bool)>>,
)
    requires
        network_ok(n, orig, es, ow),
        residual_ok(orig, res, es),
        n <= usize::MAX + 1,
        cap_total(caps_of(orig, es), es.len() as int) <= i64::MAX,
    ensures
        reports_edge_flows(es, flow_of(orig, res, es), flow_list(orig, res, n)),
{
    let f = flow_of(orig, res, es);
    let fl = flow_list(orig, res, n);
    lemma_flow_of_bounds(orig, res, es);
    lemma_slots_bounded(n, orig, res, es, ow);
    lemma_flow_list_slots(orig, res, n);
    assert forall|k: int| 0 <= k < es.len() && #[trigger] f[k] != 0 implies fl.contains(
        (es[k].from as usize, es[k].to as usize, f[k] as i64),
    ) && fl.contains((es[k].to as usize, es[k].from as usize, (-f[k]) as i64)) by {
        let e = es[k];
        assert(es[k] == es[k]);
        assert(edge_slots_ok(n, orig, e));
        assert(slot_loss(orig, res, e.from, e.fi) == f[k]);
        assert(orig[e.to][e.ti].1 == 0);
        assert(slot_loss(orig, res, e.to, e.ti) == -f[k]);
        assert(slot_entry(orig, res, e.from, e.fi) == (es[k].from as usize, es[k].to as usize, f[k] as i64));
        assert(slot_entry(orig, res, e.to, e.ti) == (es[k].to as usize, es[k].from as usize, (-f[k]) as i64));
    }
    assert forall|j: int| 0 <= j < fl.len() implies #[trigger] edge_entry(es, f, fl[j]) by {
        assert(list_sourced(orig, res, n, fl[j]));
        let (u, i) = choose|u: int, i: int|
            0 <= u < n && 0 <= i < orig[u].len() && slot_loss(orig, res, u, i) != 0 && fl[j] == #[trigger] slot_entry(
                orig,
                res,
                u,
                i,
            );
        let (k, fwd) = ow[u][i];
        assert(0 <= k < es.len());
        assert(es[k] == es[k]);
        assert(edge_slots_ok(n, orig, es[k]));
        assert(res[u].len() == orig[u].len());
        assert(res[u][i].1 <= i64::MAX && orig[u][i].1 <= i64::MAX);
        if fwd {
            assert(es[k].from == u && es[k].fi == i);
            assert(slot_loss(orig, res, u, i) == f[k]);
            assert(f[k] != 0);
        } else {
            assert(es[k].to == u && es[k].ti == i);
            assert(orig[u][i].1 == 0);
            assert(slot_loss(orig, res, u, i) == -f[k]);
            assert(f[k] != 0);
        }
    }
}

/// What Ford-Fulkerson leaves behind in the residual network `res`: a flow
/// conserved at every inner vertex, whose value is `value` and whose report is
/// `flows`; that value is both the maximum flow value and the minimum cut
/// capacity.
pub open spec fn ford_fulkerson_outcome(
    n: int,
    orig: Seq<Seq<Slot>>,
    es: Seq<EdgeRef>,
    s: usize,
    t: usize,
    value: int,
    flows: Seq<(usize, usize, i64)>,
    res: Seq<Seq<Slot>>,
) -> bool {
    &&& residual_ok(orig, res, es)
    &&& rows_agree(n, orig, res, es)
    &&& forall|w: int|
        0 <= w < n && w != s && w != t ==> #[trigger] net(es, flow_of(orig, res, es), w) == 0
    &&& net(es, flow_of(orig, res, es), s as int) == value
    &&& flows == flow_list(orig, res, n)
    &&& reports_edge_flows(es, flow_of(orig, res, es), flows)
    &&& is_max_flow_value(n, es, caps_of(orig, es), s as int, t as int, value)
    &&& is_min_cut_value(n, es, caps_of(orig, es), s as int, t as int, value)
}

/// The result of `ford_fulkerson(network, s, t)`: nothing when `s == t` or the
/// network is empty, else the outcome of the search on some residual network.
pub open spec fn max_flow_result(
    network: FlowNetwork,
    s: usize,
    t: usize,
    value: int,
    flows: Seq<(usize, usize, i64)>,
) -> bool {
    max_flow_result_of(network.vertices(), network.slots(), network.edge_refs(), s, t, value, flows)
}

/// The result of Ford-Fulkerson on the network with `n` vertices, adjacency
/// list `orig` and edges `es`.
pub open spec fn max_flow_result_of(
    n: int,
    orig: Seq<Seq<Slot>>,
    es: Seq<EdgeRef>,
    s: usize,
    t: usize,
    value: int,
    flows: Seq<(usize, usize, i64)>,
) -> bool {
    if s == t || n == 0 {
        value == 0 && flows.len() == 0
    } else {
        exists|res: Seq<Seq<Slot>>| ford_fulkerson_outcome(n, orig, es, s, t, value, flows, res)
    }
}

/// What `ford_fulkerson` requires: a network built by `add_edge` whose total
/// capacity fits an `i64`, and, when there is a flow to compute, endpoints in
/// the network.
pub open spec fn flow_input_ok(network: FlowNetwork, source: usize, sink: usize) -> bool {
    &&& network.wf()
    &&& network.total_capacity() <= i64::MAX
    &&& source == sink || network.vertices() == 0 || {
        &&& source < network.vertices()
        &&& sink < network.vertices()
    }
}

/// For every slot of the network, what it carries in the residual network.
fn collect_flows(oadj: &[Vec<Slot>], adj: &Vec<Vec<Slot>>) -> (flows: Vec<(usize, usize, i64)>)
    requires
        same_shape(deep(oadj@), deep(adj@)),
        forall|u: int, j: int|
            #![trigger deep(adj@)[u][j]]
            0 <= u < deep(adj@).len() && 0 <= j < deep(adj@)[u].len() ==> deep(adj@)[u][j].1 <= i64::MAX
                && deep(oadj@)[u][j].1 <= i64::MAX,
    ensures
        flows@ == flow_list(deep(oadj@), deep(adj@), oadj@.len() as int),
{
    let ghost orig = deep(oadj@);
    let ghost res = deep(adj@);
    let mut flows: Vec<(usize, usize, i64)> = Vec::new();
    let mut u: usize = 0;
    while u < oadj.len()
        invariant
            orig == deep(oadj@),
            res == deep(adj@),
            same_shape(orig, res),
            forall|x: int, j: int|
                #![trigger res[x][j]]
                0 <= x < res.len() && 0 <= j < res[x].len() ==> res[x][j].1 <= i64::MAX && orig[x][j].1 <= i64::MAX,
            u <= oadj@.len(),
            flows@ == flow_list(orig, res, u as int),
        decreases oadj@.len() - u,
    {
        let mut j: usize = 0;
        assert(res[u as int].len() == orig[u as int].len());
        while j < oadj[u].len()
            invariant
                orig == deep(oadj@),
                res == deep(adj@),
                same_shape(orig, res),
                forall|x: int, jj: int|
                    #![trigger res[x][jj]]
                    0 <= x < res.len() && 0 <= jj < res[x].len() ==> res[x][jj].1 <= i64::MAX && orig[x][jj].1
                        <= i64::MAX,
                u < oadj@.len(),
                j <= orig[u as int].len(),
                flows@ == flow_list(orig, res, u as int) + flow_row(orig[u as int], res[u as int], u, j as int),
            decreases orig[u as int].len() - j,
        {
            let (v, oc, _r) = oadj[u][j];
            assert(res[u as int][j as int].1 <= i64::MAX);
            assert forall|x: int| 0 <= x < res[u as int].len() implies res[u as int][x].1 <= i64::MAX by {
                assert(res[u as int][x].1 <= i64::MAX);
            }
            let cur = adj[u][j].1;
            let flow: i64 = oc as i64 - cur as i64;
            if flow != 0 {
                flows.push((u, v, flow));
            }
            j = j + 1;
            assert(flows@ =~= flow_list(orig, res, u as int) + flow_row(orig[u as int], res[u as int], u, j as int));
        }
        u = u + 1;
        assert(flows@ =~= flow_list(orig, res, u as int));
    }
    flows
}

/// Augment along depth-first paths until none is left; returns the residual
/// network, the value of its flow and the side of a closed cut.
pub(crate) fn run_ford_fulkerson(network: &FlowNetwork, source: usize, sink: usize) -> (out: (
    Vec<Vec<Slot>>,
    u64,
    Ghost<Seq<bool>>,
))
    requires
        flow_input_ok(*network, source, sink),
        source != sink,
        network.vertices() > 0,
    ensures
        ({
            let (adj, value, cut) = out;
            let nn = network.vertices();
            let orig = network.slots();
            let es = network.edge_refs();
            let res = deep(adj@);
            &&& residual_ok(orig, res, es)
            &&& rows_agree(nn, orig, res, es)
            &&& forall|w: int|
                0 <= w < nn && w != source && w != sink ==> #[trigger] net(es, flow_of(orig, res, es), w) == 0
            &&& net(es, flow_of(orig, res, es), source as int) == value
            &&& is_cut(nn, cut@, source as int, sink as int)
            &&& closed(res, cut@)
            &&& is_max_flow_value(nn, es, caps_of(orig, es), source as int, sink as int, value as int)
            &&& is_min_cut_value(nn, es, caps_of(orig, es), source as int, sink as int, value as int)
        }),
{
    let n = network.vertex_count();
    let ghost orig = network.slots();
    let ghost es = network.edge_refs();
    let ghost ow = network.owners();
    let ghost nn = n as int;
    let oadj = network.adjacency();
    let mut adj = copy_slots(oadj);
    proof {
        lemma_zero_flow(nn, orig, es, ow);
        lemma_rows_agree_zero(nn, orig, es, ow);
    }
    let mut total_flow: u64 = 0;
    let mut stop = false;
    let ghost mut cut: Seq<bool> = Seq::empty();
    let ghost total = cap_total(caps_of(orig, es), es.len() as int);
    proof {
        lemma_cap_total_nonneg(caps_of(orig, es), es.len() as int);
    }
    while !stop
        invariant
            network_ok(nn, orig, es, ow),
            orig.len() == nn,
            nn == n,
            source < n,
            sink < n,
            source != sink,
            total == cap_total(caps_of(orig, es), es.len() as int),
            total <= i64::MAX,
            residual_ok(orig, deep(adj@), es),
            rows_agree(nn, orig, deep(adj@), es),
            forall|w: int|
                0 <= w < nn && w != source && w != sink ==> #[trigger] net(es, flow_of(orig, deep(adj@), es), w)
                    == 0,
            net(es, flow_of(orig, deep(adj@), es), source as int) == total_flow,
            total_flow <= total,
            stop ==> is_cut(nn, cut, source as int, sink as int) && closed(deep(adj@), cut),
        decreases total - total_flow, (if stop { 0int } else { 1 }),
    {
        let mut visited = all_false(n);
        let ghost vis0 = visited@;
        let ghost res0 = deep(adj@);
        let pushed = dfs_augment(&mut adj, source, sink, u64::MAX, &mut visited, Ghost(orig), Ghost(es), Ghost(ow));
        if pushed == 0 {
            stop = true;
            proof {
                cut = visited@;
                assert(closed(deep(adj@), cut)) by {
                    assert forall|u: int, i: int|
                        0 <= u < deep(adj@).len() && 0 <= i < deep(adj@)[u].len() && cut[u] && deep(adj@)[u][i].1 > 0
                        implies cut[#[trigger] deep(adj@)[u][i].0 as int] by {
                        assert(!vis0[u]);
                        assert(res0[u][i] == deep(adj@)[u][i]);
                    }
                }
            }
        } else {
            proof {
                assert forall|w: int| 0 <= w < nn && w != source && w != sink implies #[trigger] net(
                    es,
                    flow_of(orig, deep(adj@), es),
                    w,
                ) == 0 by {
                    assert(net(es, flow_of(orig, res0, es), w) == 0);
                }
                assert(net(es, flow_of(orig, deep(adj@), es), source as int) == total_flow + pushed);
                lemma_value_le_total(nn, orig, deep(adj@), es, ow, source as int, sink as int);
            }
            total_flow = total_flow + pushed;
        }
    }
    let ghost res = deep(adj@);
    proof {
        law_closed_cut_certifies_max_flow(nn, orig, res, es, ow, cut, source as int, sink as int);
    }
    (adj, total_flow, Ghost(cut))
}

/// Compute the maximum flow from `source` to `sink` using Ford-Fulkerson with DFS.
///
/// Returns the max flow value and the flow on each edge.
pub fn ford_fulkerson(network: &FlowNetwork, source: usize, sink: usize) -> (result: MaxFlowResult)
    requires
        flow_input_ok(*network, source, sink),
    ensures
        max_flow_result(*network, source, sink, result.max_flow as int, result.flows@),
{
    let n = network.vertex_count();
    if source == sink || n == 0 {
        return MaxFlowResult { max_flow: 0, flows: Vec::new() };
    }
    let ghost orig = network.slots();
    let ghost es = network.edge_refs();
    let ghost ow = network.owners();
    let ghost nn = n as int;
    let oadj = network.adjacency();
    let (adj, total_flow, _cut) = run_ford_fulkerson(network, source, sink);
    let ghost res = deep(adj@);
    proof {
        lemma_slots_bounded(nn, orig, res, es, ow);
    }
    let flows = collect_flows(oadj, &adj);
    let result = MaxFlowResult { max_flow: total_flow, flows };
    proof {
        law_reported_flows_are_edge_flows(nn, orig, res, es, ow);
    }
    assert(ford_fulkerson_outcome(nn, orig, es, source, sink, total_flow as int, result.flows@, res));
    result
}

/// Compute the minimum s-t cut value (equals the max flow by the max-flow min-cut theorem).
pub fn min_cut_value(network: &FlowNetwork, source: usize, sink: usize) -> (v: u64)
    requires
        flow_input_ok(*network, source, sink),
    ensures
        exists|flows: Seq<(usize, usize, i64)>| max_flow_result(*network, source, sink, v as int, flows),
{
    let result = ford_fulkerson(network, source, sink);
    result.max_flow
}

/// Number of slots of the first `m` vertices.
pub open spec fn slot_count(a: Seq<Seq<Slot>>, m: int) -> int
    decreases m,
{
    if m <= 0 {
        0
    } else {
        slot_count(a, m - 1) + a[m - 1].len()
    }
}

/// The result of `min_cut`: for a trivial query nothing is reachable; else
/// the side reachable from the source in the residual network that
/// Ford-Fulkerson leaves, whose capacity is the maximum flow value and the
/// smallest capacity of a cut, then the other vertices, and that value.
pub open spec fn min_cut_result(
    network: FlowNetwork,
    s: usize,
    t: usize,
    reach: Seq<usize>,
    unreach: Seq<usize>,
    value: int,
) -> bool {
    let n = network.vertices();
    let orig = network.slots();
    let es = network.edge_refs();
    if s == t || n == 0 {
        reach.len() == 0 && unreach == Seq::new(n as nat, |w: int| w as usize) && value == 0
    } else {
        exists|res: Seq<Seq<Slot>>|
            {
                let side = reach_side(res, s as int);
                &&& #[trigger] residual_ok(orig, res, es)
                &&& forall|w: int|
                    0 <= w < n && w != s && w != t ==> #[trigger] net(es, flow_of(orig, res, es), w) == 0
                &&& net(es, flow_of(orig, res, es), s as int) == value
                &&& is_cut(n, side, s as int, t as int)
                &&& cut_cap(es, caps_of(orig, es), side) == value
                &&& is_max_flow_value(n, es, caps_of(orig, es), s as int, t as int, value)
                &&& is_min_cut_value(n, es, caps_of(orig, es), s as int, t as int, value)
                &&& reach == marked_indices(side, n)
                &&& unreach == marked_indices(Seq::new(n as nat, |w: int| !side[w]), n)
                &&& lists_marked(reach, side, n)
                &&& lists_marked(unreach, Seq::new(n as nat, |w: int| !side[w]), n)
            }
    }
}



/// Find the minimum s-t cut: returns (reachable vertices, unreachable vertices, cut capacity).
pub fn min_cut(network: &FlowNetwork, source: usize, sink: usize) -> (out: (Vec<usize>, Vec<usize>, u64))
    requires
        flow_input_ok(*network, source, sink),
    ensures
        min_cut_result(*network, source, sink, out.0@, out.1@, out.2 as int),
{
    let n = network.vertex_count();
    if source == sink || n == 0 {
        let mut all: Vec<usize> = Vec::new();
        let mut i: usize = 0;
        while i < n
            invariant
                i <= n,
                all@ == Seq::new(i as nat, |w: int| w as usize),
            decreases n - i,
        {
            all.push(i);
            i = i + 1;
            assert(all@ =~= Seq::new(i as nat, |w: int| w as usize));
        }
        return (Vec::new(), all, 0);
    }
    let (adj, total_flow, Ghost(cut)) = run_ford_fulkerson(network, source, sink);
    let ghost res = deep(adj@);
    let ghost orig = network.slots();
    proof {
        lemma_shape_bounds(n as int, orig, res);
    }
    // Breadth-first search in the residual network.
    let (visited, parent, Ghost(ord)) = bfs_tree(&adj, source, sink, false, Ghost(n as int));
    proof {
        assert forall|w: int| 0 <= w < n implies visited@[w] == #[trigger] reachable(res, source as int, w) by {
            if visited@[w] {
                lemma_tree_reachable(res, visited@, parent@, ord, source as int, w);
            }
            if reachable(res, source as int, w) {
                lemma_closed_holds_reachable(res, visited@, source as int, w);
            }
        }
        assert(visited@ =~= reach_side(res, source as int));
        if visited@[sink as int] {
            lemma_closed_holds_reachable(res, cut, source as int, sink as int);
        }
        law_closed_cut_certifies_max_flow(
            n as int,
            orig,
            res,
            network.edge_refs(),
            network.owners(),
            visited@,
            source as int,
            sink as int,
        );
        assert(Seq::new(visited@.len(), |w: int| !visited@[w]) =~= Seq::new(
            n as nat,
            |w: int| !reach_side(res, source as int)[w],
        ));
    }
    let reachable_v = collect_marked(&visited);
    let unreachable_v = collect_unmarked(&visited);
    (reachable_v, unreachable_v, total_flow)
}

/// Ford-Fulkerson reports its flow edge by edge: on a nontrivial query, some
/// conserved maximum flow `f` carried by a residual network has every edge
/// with flow listed as `(from, to, f_k)` with `f_k` positive and at most the
/// edge's capacity, and as `(to, from, -f_k)`, and nothing else is listed.
pub proof fn law_ford_fulkerson_reports_each_edge(
    network: FlowNetwork,
    s: usize,
    t: usize,
    value: int,
    flows: Seq<(usize, usize, i64)>,
)
    requires
        network.wf(),
        s != t,
        network.vertices() > 0,
        max_flow_result(network, s, t, value, flows),
    ensures
        exists|res: Seq<Seq<Slot>>|
            #[trigger] residual_ok(network.slots(), res, network.edge_refs()) && {
                let f = flow_of(network.slots(), res, network.edge_refs());
                &&& forall|k: int| 0 <= k < f.len() ==> 0 <= #[trigger] f[k] <= network.capacities()[k]
                &&& net(network.edge_refs(), f, s as int) == value
                &&& is_max_flow_value(network.vertices(), network.edge_refs(), network.capacities(), s as int, t as int, value)
                &&& reports_edge_flows(network.edge_refs(), f, flows)
            },
{
    let orig = network.slots();
    let es = network.edge_refs();
    let res = choose|res: Seq<Seq<Slot>>| ford_fulkerson_outcome(network.vertices(), orig, es, s, t, value, flows, res);
    lemma_flow_of_bounds(orig, res, es);
    assert(residual_ok(orig, res, es));
}

/// The sides that `min_cut` reports on a nontrivial query: a vertex is listed
/// on the source side exactly when the source reaches it in the residual
/// network Ford-Fulkerson leaves, on the other side exactly when it does not,
/// both lists strictly increasing and within the vertices.
pub proof fn law_min_cut_sides(
    network: FlowNetwork,
    s: usize,
    t: usize,
    reach: Seq<usize>,
    unreach: Seq<usize>,
    value: int,
)
    requires
        s != t,
        network.vertices() > 0,
        min_cut_result(network, s, t, reach, unreach, value),
    ensures
        exists|res: Seq<Seq<Slot>>|
            #[trigger] residual_ok(network.slots(), res, network.edge_refs()) && {
                &&& forall|w: int|
                    0 <= w < network.vertices() ==> (#[trigger] reach.contains(w as usize) <==> reachable(res, s as int, w))
                &&& forall|w: int|
                    0 <= w < network.vertices() ==> (#[trigger] unreach.contains(w as usize) <==> !reachable(res, s as int, w))
                &&& forall|i: int, j: int| 0 <= i < j < reach.len() ==> #[trigger] reach[i] < #[trigger] reach[j]
                &&& forall|i: int, j: int| 0 <= i < j < unreach.len() ==> #[trigger] unreach[i] < #[trigger] unreach[j]
                &&& forall|i: int| 0 <= i < reach.len() ==> (#[trigger] reach[i] as int) < network.vertices()
                &&& forall|i: int| 0 <= i < unreach.len() ==> (#[trigger] unreach[i] as int) < network.vertices()
                &&& cut_cap(network.edge_refs(), network.capacities(), reach_side(res, s as int)) == value
                &&& is_min_cut_value(network.vertices(), network.edge_refs(), network.capacities(), s as int, t as int, value)
            },
{
    let n = network.vertices();
    let res = choose|res: Seq<Seq<Slot>>|
        {
            let side = reach_side(res, s as int);
            &&& #[trigger] residual_ok(network.slots(), res, network.edge_refs())
            &&& forall|w: int|
                0 <= w < n && w != s && w != t ==> #[trigger] net(network.edge_refs(), flow_of(network.slots(), res, network.edge_refs()), w) == 0
            &&& net(network.edge_refs(), flow_of(network.slots(), res, network.edge_refs()), s as int) == value
            &&& is_cut(n, side, s as int, t as int)
            &&& cut_cap(network.edge_refs(), caps_of(network.slots(), network.edge_refs()), side) == value
            &&& is_max_flow_value(n, network.edge_refs(), caps_of(network.slots(), network.edge_refs()), s as int, t as int, value)
            &&& is_min_cut_value(n, network.edge_refs(), caps_of(network.slots(), network.edge_refs()), s as int, t as int, value)
            &&& reach == marked_indices(side, n)
            &&& unreach == marked_indices(Seq::new(n as nat, |w: int| !side[w]), n)
            &&& lists_marked(reach, side, n)
            &&& lists_marked(unreach, Seq::new(n as nat, |w: int| !side[w]), n)
        };
    let side = reach_side(res, s as int);
    assert forall|w: int| 0 <= w < n implies (#[trigger] reach.contains(w as usize) <==> reachable(res, s as int, w)) by {
        assert(side[w] == reachable(res, s as int, w));
    }
    assert forall|w: int| 0 <= w < n implies (#[trigger] unreach.contains(w as usize) <==> !reachable(res, s as int, w)) by {
        assert(Seq::new(n as nat, |x: int| !side[x])[w] == !reachable(res, s as int, w));
    }
}

} // verus!
