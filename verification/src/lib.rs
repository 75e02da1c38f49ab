//! Network flow algorithms: maximum flow (Ford-Fulkerson, Edmonds-Karp),
//! minimum-cost flow, bipartite matching and circulation with demands.
//!
//! Capacities, costs and demands are integers here, so that every algorithm
//! is exact and its termination and results can be proved.
use vstd::prelude::*;

pub mod flow_spec;
pub mod max_flow;
pub mod bipartite;
pub mod matching;
pub mod cover;
pub mod edmonds_karp;
pub mod circulation;
pub mod circulation_total;
pub mod feasibility;
pub mod cost_spec;
pub mod min_cost;

use crate::flow_spec::{
    bounds_ok, cap_total, caps_of, deep, edge_slots_ok, edges_ok, network_ok, same_shape,
    EdgeRef, Slot,
};

verus! {

/// Index of the reverse slot that `add_edge(from, to, _)` adds to `to`'s list:
/// the end of that list, or one past the new forward slot for a self-loop.
pub open spec fn reverse_index(a: Seq<Seq<Slot>>, from: usize, to: usize) -> usize {
    if from == to {
        (a[to as int].len() + 1) as usize
    } else {
        a[to as int].len() as usize
    }
}

/// The adjacency list after `add_edge(from, to, capacity)`: a forward slot at
/// the end of `from`'s list and a reverse slot of capacity 0 at the end of
/// `to`'s list, each naming the other's index.
pub open spec fn added_slots(a: Seq<Seq<Slot>>, from: usize, to: usize, capacity: u64) -> Seq<Seq<Slot>> {
    let a1 = a.update(from as int, a[from as int].push((to, capacity, reverse_index(a, from, to))));
    a1.update(to as int, a1[to as int].push((from, 0u64, a[from as int].len() as usize)))
}

/// Where `add_edge(from, to, _)` puts the two slots of the new edge.
pub open spec fn new_edge_ref(a: Seq<Seq<Slot>>, from: int, to: int) -> EdgeRef {
    EdgeRef {
        from,
        fi: a[from].len() as int,
        to,
        ti: if from == to { (a[to].len() + 1) as int } else { a[to].len() as int },
    }
}

/// The adjacency list of a network with `n` vertices after adding the
/// edges `(from, to, capacity)` of `tr` in order.
pub open spec fn built_slots(n: nat, tr: Seq<(usize, usize, u64)>) -> Seq<Seq<Slot>>
    decreases tr.len(),
{
    if tr.len() == 0 {
        Seq::new(n, |u: int| Seq::<Slot>::empty())
    } else {
        let t = tr.last();
        added_slots(built_slots(n, tr.drop_last()), t.0, t.1, t.2)
    }
}

/// The edge list of a network with `n` vertices after adding the edges of `tr` in order.
pub open spec fn built_edges(n: nat, tr: Seq<(usize, usize, u64)>) -> Seq<EdgeRef>
    decreases tr.len(),
{
    if tr.len() == 0 {
        Seq::empty()
    } else {
        let t = tr.last();
        built_edges(n, tr.drop_last()).push(new_edge_ref(built_slots(n, tr.drop_last()), t.0 as int, t.1 as int))
    }
}

/// A flow network represented as an adjacency list with capacity edges.
#[derive(Clone)]
pub struct FlowNetwork {
    n: usize,
    /// Each entry contains (to, capacity, rev_index) where rev_index is the
    /// index of the reverse edge in adj[to].
    adj: Vec<Vec<(usize, u64, usize)>>,
    /// The edges added so far, in order.
    edges: Ghost<Seq<EdgeRef>>,
    /// For every slot, the edge it belongs to and whether it is its forward slot.
    owner: Ghost<Seq<Seq<(int, bool)>>>,
}

impl FlowNetwork {
    /// Number of vertices.
    pub closed spec fn vertices(&self) -> int {
        self.n as int
    }

    /// The adjacency list.
    pub closed spec fn slots(&self) -> Seq<Seq<Slot>> {
        deep(self.adj@)
    }

    /// The edges added so far, in order.
    pub closed spec fn edge_refs(&self) -> Seq<EdgeRef> {
        self.edges@
    }

    /// The owner of every slot.
    pub closed spec fn owners(&self) -> Seq<Seq<(int, bool)>> {
        self.owner@
    }

    /// The network is one that `new` and `add_edge` can build: every slot
    /// owned by one edge, each edge's two slots naming each other, and every
    /// reverse slot empty.
    pub open spec fn wf(&self) -> bool {
        network_ok(self.vertices(), self.slots(), self.edge_refs(), self.owners())
    }

    /// The capacity of every edge, in the order the edges were added.
    pub open spec fn capacities(&self) -> Seq<int> {
        caps_of(self.slots(), self.edge_refs())
    }

    /// The sum of all capacities.
    pub open spec fn total_capacity(&self) -> int {
        cap_total(self.capacities(), self.edge_refs().len() as int)
    }

    /// Create a new flow network with `n` vertices.
    pub fn new(n: usize) -> (net: Self)
        ensures
            net.wf(),
            net.vertices() == n,
            net.slots() == Seq::new(n as nat, |u: int| Seq::<Slot>::empty()),
            net.edge_refs() == Seq::<EdgeRef>::empty(),
    {
        let mut adj: Vec<Vec<Slot>> = Vec::new();
        let mut i: usize = 0;
        while i < n
            invariant
                i <= n,
                adj@.len() == i,
                forall|u: int| 0 <= u < i ==> adj@[u]@ == Seq::<Slot>::empty(),
            decreases n - i,
        {
            adj.push(Vec::new());
            i = i + 1;
        }
        let ghost ow = Seq::new(n as nat, |u: int| Seq::<(int, bool)>::empty());
        let net = FlowNetwork { n, adj, edges: Ghost(Seq::empty()), owner: Ghost(ow) };
        assert(net.slots() =~= Seq::new(n as nat, |u: int| Seq::<Slot>::empty()));
        net
    }

    /// Number of vertices.
    pub fn vertex_count(&self) -> (n: usize)
        ensures
            n == self.vertices(),
    {
        self.n
    }

    /// Add a directed edge with given capacity (and a reverse edge with capacity 0).
    pub fn add_edge(&mut self, from: usize, to: usize, capacity: u64)
        requires
            old(self).wf(),
            from < old(self).vertices(),
            to < old(self).vertices(),
        ensures
            final(self).wf(),
            final(self).vertices() == old(self).vertices(),
            final(self).slots() == added_slots(old(self).slots(), from, to, capacity),
            final(self).edge_refs() == old(self).edge_refs().push(
                new_edge_ref(old(self).slots(), from as int, to as int),
            ),
            final(self).total_capacity() == old(self).total_capacity() + capacity,
    {
        let ghost a = self.slots();
        let ghost es = self.edges@;
        let ghost ow = self.owner@;
        let ghost n = self.n as int;
        let rev_to = self.adj[from].len();
        self.adj[from].push((to, capacity, 0));
        self.adj[to].push((from, 0, rev_to));
        let rev_from = self.adj[to].len() - 1;
        self.adj[from].set(rev_to, (to, capacity, rev_from));
        let ghost e = new_edge_ref(a, from as int, to as int);
        let ghost k = es.len() as int;
        let ghost ow1 = ow.update(from as int, ow[from as int].push((k, true)));
        let ghost ow2 = ow1.update(to as int, ow1[to as int].push((k, false)));
        self.edges = Ghost(es.push(e));
        self.owner = Ghost(ow2);
        proof {
            let b = added_slots(a, from, to, capacity);
            let fwd = (to, capacity, reverse_index(a, from, to));
            let rev = (from, 0u64, a[from as int].len() as usize);
            if from == to {
                assert(self.adj@[from as int]@ =~= a[from as int].push(fwd).push(rev));
            } else {
                assert(self.adj@[from as int]@ =~= a[from as int].push(fwd));
                assert(self.adj@[to as int]@ =~= a[to as int].push(rev));
            }
            assert forall|w: int| 0 <= w < n implies #[trigger] self.slots()[w] =~= b[w] by {}
            assert(self.slots() =~= b);
            assert(self.adj@[from as int]@.len() == self.adj@[from as int].len());
            assert(self.adj@[to as int]@.len() == self.adj@[to as int].len());
            assert(b[from as int].len() >= a[from as int].len() + 1);
            assert(b[to as int].len() >= a[to as int].len() + 1);
            assert(a[from as int].len() < usize::MAX && a[to as int].len() < usize::MAX);
            lemma_add_edge_ok(n, a, es, ow, from, to, capacity);
            lemma_add_edge_total(a, es, from, to, capacity);
        }
    }

    /// Get the adjacency list (for reading).
    pub fn adjacency(&self) -> (adj: &[Vec<(usize, u64, usize)>])
        ensures
            deep(adj@) == self.slots(),
    {
        self.adj.as_slice()
    }

    /// Get a mutable reference to the adjacency list.  After edits that keep
    /// every slot's target and paired index and leave reverse slots empty,
    /// `lemma_edited_network_wf` gives the network back its well-formedness.
    pub fn adjacency_mut(&mut self) -> (adj: &mut Vec<Vec<(usize, u64, usize)>>)
        ensures
            deep(adj@) == old(self).slots(),
            final(self).slots() == deep(final(adj)@),
            final(self).vertices() == old(self).vertices(),
            final(self).edge_refs() == old(self).edge_refs(),
            final(self).owners() == old(self).owners(),
    {
        &mut self.adj
    }
}

/// A network edited in place through `adjacency_mut` stays one that `add_edge`
/// and the algorithms accept when every slot keeps its target and its paired
/// index and every reverse slot stays empty: only forward capacities moved.
pub proof fn lemma_edited_network_wf(before: FlowNetwork, after: FlowNetwork)
    requires
        before.wf(),
        after.vertices() == before.vertices(),
        after.edge_refs() == before.edge_refs(),
        after.owners() == before.owners(),
        same_shape(before.slots(), after.slots()),
        forall|k: int|
            #![trigger after.edge_refs()[k]]
            0 <= k < after.edge_refs().len() ==> after.slots()[after.edge_refs()[k].to][after.edge_refs()[k].ti].1 == 0,
    ensures
        after.wf(),
{
    let n = before.vertices();
    let a = before.slots();
    let b = after.slots();
    let es = before.edge_refs();
    let ow = before.owners();
    assert(bounds_ok(n, b)) by {
        assert forall|u: int, i: int| 0 <= u < n && 0 <= i < b[u].len() implies {
            &&& (#[trigger] b[u][i].0 as int) < n
            &&& (b[u][i].2 as int) < b[b[u][i].0 as int].len()
        } by {
            assert(a[u][i].0 == b[u][i].0 && a[u][i].2 == b[u][i].2);
            assert(a[u][i] == a[u][i]);
        }
    }
    assert(edges_ok(n, b, es, ow)) by {
        assert forall|k: int| #![trigger es[k]] 0 <= k < es.len() implies edge_slots_ok(n, b, es[k]) by {
            assert(edge_slots_ok(n, a, es[k]));
            let e = es[k];
            assert(a[e.from][e.fi].0 == b[e.from][e.fi].0 && a[e.from][e.fi].2 == b[e.from][e.fi].2);
            assert(a[e.to][e.ti].0 == b[e.to][e.ti].0 && a[e.to][e.ti].2 == b[e.to][e.ti].2);
        }
        assert forall|u: int, i: int| 0 <= u < n && 0 <= i < b[u].len() implies {
            let (kk, fwd) = #[trigger] ow[u][i];
            &&& 0 <= kk < es.len()
            &&& fwd ==> es[kk].from == u && es[kk].fi == i
            &&& !fwd ==> es[kk].to == u && es[kk].ti == i
        } by {
            assert(ow[u][i] == ow[u][i]);
        }
    }
}

proof fn lemma_add_edge_ok(
    n: int,
    a: Seq<Seq<Slot>>,
    es: Seq<EdgeRef>,
    ow: Seq<Seq<(int, bool)>>,
    from: usize,
    to: usize,
    capacity: u64,
)
    requires
        network_ok(n, a, es, ow),
        from < n,
        to < n,
        a[from as int].len() < usize::MAX,
        a[to as int].len() < usize::MAX,
    ensures
        ({
            let b = added_slots(a, from, to, capacity);
            let e = new_edge_ref(a, from as int, to as int);
            let k = es.len() as int;
            let ow1 = ow.update(from as int, ow[from as int].push((k, true)));
            let ow2 = ow1.update(to as int, ow1[to as int].push((k, false)));
            network_ok(n, b, es.push(e), ow2)
        }),
{
    let b = added_slots(a, from, to, capacity);
    let e = new_edge_ref(a, from as int, to as int);
    let k = es.len() as int;
    let es2 = es.push(e);
    let ow1 = ow.update(from as int, ow[from as int].push((k, true)));
    let ow2 = ow1.update(to as int, ow1[to as int].push((k, false)));
    // old slots are kept
    assert forall|u: int, i: int| 0 <= u < n && 0 <= i < a[u].len() implies #[trigger] b[u][i] == a[u][i]
        && ow2[u][i] == ow[u][i] by {}
    assert(b.len() == n);
    assert forall|u: int| 0 <= u < n implies #[trigger] b[u].len() == a[u].len() + (if u == from { 1int } else { 0 })
        + (if u == to { 1int } else { 0 }) && ow2[u].len() == b[u].len() by {}
    assert(bounds_ok(n, b)) by {
        assert forall|u: int, i: int| 0 <= u < n && 0 <= i < b[u].len() implies {
            &&& (#[trigger] b[u][i].0 as int) < n
            &&& (b[u][i].2 as int) < b[b[u][i].0 as int].len()
        } by {
            if i < a[u].len() {
                assert(b[u][i] == a[u][i]);
                assert(b[a[u][i].0 as int].len() >= a[a[u][i].0 as int].len());
            } else if u == from && i == a[u].len() {
                assert(b[u][i] == (to, capacity, reverse_index(a, from, to)));
                assert(b[to as int].len() >= a[to as int].len() + 1);
            } else {
                assert(u == to);
                assert(b[u][i] == (from, 0u64, a[from as int].len() as usize));
                assert(b[from as int].len() >= a[from as int].len() + 1);
            }
        }
    }
    assert(edges_ok(n, b, es2, ow2)) by {
        assert forall|j: int| #![trigger es2[j]] 0 <= j < es2.len() implies {
            &&& edge_slots_ok(n, b, es2[j])
            &&& ow2[es2[j].from][es2[j].fi] == (j, true)
            &&& ow2[es2[j].to][es2[j].ti] == (j, false)
        } by {
            if j < es.len() {
                assert(es2[j] == es[j]);
                assert(edge_slots_ok(n, a, es[j]));
                assert(b[es[j].from][es[j].fi] == a[es[j].from][es[j].fi]);
                assert(b[es[j].to][es[j].ti] == a[es[j].to][es[j].ti]);
            }
        }
        assert forall|u: int, i: int| 0 <= u < n && 0 <= i < b[u].len() implies {
            let (kk, fwd) = #[trigger] ow2[u][i];
            &&& 0 <= kk < es2.len()
            &&& fwd ==> es2[kk].from == u && es2[kk].fi == i
            &&& !fwd ==> es2[kk].to == u && es2[kk].ti == i
        } by {
            if i < a[u].len() {
                assert(ow2[u][i] == ow[u][i]);
                let (kk, fwd) = ow[u][i];
                assert(es2[kk] == es[kk]);
            }
        }
    }
    assert forall|j: int| #![trigger es2[j]] 0 <= j < es2.len() implies b[es2[j].to][es2[j].ti].1 == 0 by {
        if j < es.len() {
            assert(es2[j] == es[j]);
            assert(edge_slots_ok(n, a, es[j]));
            assert(b[es[j].to][es[j].ti] == a[es[j].to][es[j].ti]);
        }
    }
}

proof fn lemma_add_edge_total(a: Seq<Seq<Slot>>, es: Seq<EdgeRef>, from: usize, to: usize, capacity: u64)
    requires
        from < a.len(),
        to < a.len(),
        forall|k: int|
            #![trigger es[k]]
            0 <= k < es.len() ==> 0 <= es[k].from < a.len() && 0 <= es[k].fi < a[es[k].from].len(),
    ensures
        ({
            let b = added_slots(a, from, to, capacity);
            let es2 = es.push(new_edge_ref(a, from as int, to as int));
            cap_total(caps_of(b, es2), es2.len() as int) == cap_total(caps_of(a, es), es.len() as int)
                + capacity
        }),
{
    let b = added_slots(a, from, to, capacity);
    let es2 = es.push(new_edge_ref(a, from as int, to as int));
    let c1 = caps_of(a, es);
    let c2 = caps_of(b, es2);
    assert forall|k: int| 0 <= k < es.len() implies c1[k] == c2[k] by {
        assert(es2[k] == es[k]);
        assert(0 <= es[k].from < a.len() && 0 <= es[k].fi < a[es[k].from].len());
    }
    lemma_cap_total_ext(c1, c2, es.len() as int);
}

/// Totals depend on the capacities only.
pub proof fn lemma_cap_total_ext(c1: Seq<int>, c2: Seq<int>, m: int)
    requires
        forall|k: int| 0 <= k < m ==> c1[k] == c2[k],
    ensures
        cap_total(c1, m) == cap_total(c2, m),
    decreases m,
{
    if m > 0 {
        lemma_cap_total_ext(c1, c2, m - 1);
    }
}

/// A copy of an adjacency list, to be used as a residual network.
pub(crate) fn copy_slots(a: &[Vec<Slot>]) -> (c: Vec<Vec<Slot>>)
    ensures
        deep(c@) == deep(a@),
{
    let mut c: Vec<Vec<Slot>> = Vec::new();
    let mut u: usize = 0;
    while u < a.len()
        invariant
            u <= a@.len(),
            c@.len() == u,
            forall|x: int| 0 <= x < u ==> c@[x]@ == a@[x]@,
        decreases a@.len() - u,
    {
        let mut row: Vec<Slot> = Vec::new();
        let mut i: usize = 0;
        while i < a[u].len()
            invariant
                u < a@.len(),
                i <= a@[u as int]@.len(),
                row@ == a@[u as int]@.subrange(0, i as int),
            decreases a@[u as int]@.len() - i,
        {
            row.push(a[u][i]);
            i = i + 1;
            assert(row@ =~= a@[u as int]@.subrange(0, i as int));
        }
        assert(row@ =~= a@[u as int]@);
        c.push(row);
        u = u + 1;
    }
    assert(deep(c@) =~= deep(a@));
    c
}

/// A vector of `n` entries, all `false`.
pub(crate) fn all_false(n: usize) -> (v: Vec<bool>)
    ensures
        v@ == Seq::new(n as nat, |i: int| false),
{
    let mut v: Vec<bool> = Vec::new();
    let mut i: usize = 0;
    while i < n
        invariant
            i <= n,
            v@ == Seq::new(i as nat, |j: int| false),
        decreases n - i,
    {
        v.push(false);
        i = i + 1;
        assert(v@ =~= Seq::new(i as nat, |j: int| false));
    }
    v
}


/// The edges of a network built from `tr` are the triples of `tr`: the
/// `k`-th edge goes from `tr[k].0` to `tr[k].1` with capacity `tr[k].2`.
pub proof fn lemma_built_edges(n: nat, tr: Seq<(usize, usize, u64)>)
    requires
        forall|k: int| 0 <= k < tr.len() ==> (#[trigger] tr[k].0 as int) < n && (tr[k].1 as int) < n,
    ensures
        built_slots(n, tr).len() == n,
        built_edges(n, tr).len() == tr.len(),
        forall|k: int|
            #![trigger built_edges(n, tr)[k]]
            0 <= k < tr.len() ==> {
                let e = built_edges(n, tr)[k];
                &&& e.from == tr[k].0
                &&& e.to == tr[k].1
                &&& 0 <= e.fi < built_slots(n, tr)[e.from].len()
                &&& built_slots(n, tr)[e.from][e.fi].1 == tr[k].2
            },
    decreases tr.len(),
{
    if tr.len() > 0 {
        let p = tr.drop_last();
        assert forall|k: int| 0 <= k < p.len() implies (#[trigger] p[k].0 as int) < n && (p[k].1 as int) < n by {
            assert(p[k] == tr[k]);
        }
        lemma_built_edges(n, p);
        let a = built_slots(n, p);
        let t = tr.last();
        let b = built_slots(n, tr);
        assert(b == added_slots(a, t.0, t.1, t.2));
        assert forall|k: int| #![trigger built_edges(n, tr)[k]] 0 <= k < tr.len() implies {
            let e = built_edges(n, tr)[k];
            &&& e.from == tr[k].0
            &&& e.to == tr[k].1
            &&& 0 <= e.fi < built_slots(n, tr)[e.from].len()
            &&& built_slots(n, tr)[e.from][e.fi].1 == tr[k].2
        } by {
            if k < p.len() {
                let e = built_edges(n, p)[k];
                assert(built_edges(n, tr)[k] == e);
                assert(p[k] == tr[k]);
                assert(b[e.from][e.fi] == a[e.from][e.fi]);
            } else {
                assert(tr[k] == t);
            }
        }
    }
}

} // verus!
