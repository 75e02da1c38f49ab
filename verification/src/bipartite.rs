//! Bipartite matching via flow reduction.
//!
//! Maximum bipartite matching by reducing to a max-flow problem
//! with a super-source and super-sink.
use vstd::prelude::*;

use crate::flow_spec::{
    edge_slots_ok, edges_ok, flow_of, net, network_ok, residual_ok, row_flow_upto, row_net, Slot,
};
use crate::max_flow::{
    self, flow_input_ok, flow_list, flow_row, ford_fulkerson_outcome, max_flow_result_of,
};
use crate::matching::{
    is_matching, is_maximum_matching, is_reduction, lemma_matching_at_most_max_flow, lemma_matching_shape,
};
use crate::cover::{
    is_maximum_independent_size, is_minimum_cover_size, is_vertex_cover, law_independent_sets_complement_covers,
    flipped, lemma_count_flipped, lemma_count_none, lemma_count_nonneg, lemma_min_cut_is_min_cover, marked,
};
use crate::{built_edges, built_slots, lemma_built_edges, FlowNetwork};

verus! {

/// A bipartite graph with left and right vertex sets.
#[derive(Debug)]
pub struct BipartiteGraph {
    /// Number of left vertices.
    left_size: usize,
    /// Number of right vertices.
    right_size: usize,
    /// Edges from left to right.
    edges: Vec<(usize, usize)>,
}

impl BipartiteGraph {
    /// Number of left vertices.
    pub closed spec fn left(&self) -> int {
        self.left_size as int
    }

    /// Number of right vertices.
    pub closed spec fn right(&self) -> int {
        self.right_size as int
    }

    /// The edges, in the order they were added.
    pub closed spec fn edge_list(&self) -> Seq<(usize, usize)> {
        self.edges@
    }

    /// Every edge joins a left vertex to a right vertex.
    #[verifier::type_invariant]
    spec fn edges_in_range(&self) -> bool {
        forall|i: int|
            0 <= i < self.edges@.len() ==> #[trigger] self.edges@[i].0 < self.left_size && self.edges@[i].1
                < self.right_size
    }

    /// Create a new bipartite graph with `left_size` left vertices and `right_size` right vertices.
    pub fn new(left_size: usize, right_size: usize) -> (g: Self)
        ensures
            g.left() == left_size,
            g.right() == right_size,
            g.edge_list() == Seq::<(usize, usize)>::empty(),
    {
        Self { left_size, right_size, edges: Vec::new() }
    }

    /// Add an edge from left vertex `u` to right vertex `v`.
    pub fn add_edge(&mut self, u: usize, v: usize)
        requires
            u < old(self).left(),
            v < old(self).right(),
        ensures
            final(self).left() == old(self).left(),
            final(self).right() == old(self).right(),
            final(self).edge_list() == old(self).edge_list().push((u, v)),
    {
        proof {
            use_type_invariant(&*self);
        }
        let mut edges: Vec<(usize, usize)> = Vec::new();
        std::mem::swap(&mut edges, &mut self.edges);
        edges.push((u, v));
        self.edges = edges;
    }

    /// Get the number of left vertices.
    pub fn left_size(&self) -> (l: usize)
        ensures
            l == self.left(),
    {
        self.left_size
    }

    /// Get the number of right vertices.
    pub fn right_size(&self) -> (r: usize)
        ensures
            r == self.right(),
    {
        self.right_size
    }

    /// The reduction can be built and solved: the flow network's size fits a
    /// `usize`, its total capacity an `i64`.
    pub open spec fn matching_input_ok(&self) -> bool {
        &&& self.left() + self.right() + 2 <= usize::MAX
        &&& self.left() + self.right() + self.edge_list().len() <= i64::MAX
    }
}

impl Clone for BipartiteGraph {
    /// A copy with the same sides and the same edges.
    fn clone(&self) -> (g: Self)
        ensures
            g.left() == self.left(),
            g.right() == self.right(),
            g.edge_list() == self.edge_list(),
    {
        proof {
            use_type_invariant(self);
        }
        let mut edges: Vec<(usize, usize)> = Vec::new();
        let mut i: usize = 0;
        while i < self.edges.len()
            invariant
                i <= self.edges@.len(),
                edges@ == self.edges@.take(i as int),
            decreases self.edges@.len() - i,
        {
            edges.push(self.edges[i]);
            i = i + 1;
            assert(edges@ =~= self.edges@.take(i as int));
        }
        assert(self.edges@.take(self.edges@.len() as int) =~= self.edges@);
        BipartiteGraph { left_size: self.left_size, right_size: self.right_size, edges }
    }
}

/// Result of bipartite matching.
#[derive(Debug, Clone)]
pub struct MatchingResult {
    /// Number of matched pairs.
    pub matching_size: usize,
    /// Matched pairs (left, right).
    pub matches: Vec<(usize, usize)>,
}

/// The edges of the flow reduction, in the order they are added: source to
/// every left vertex, every right vertex to sink, then every graph edge, all
/// of capacity 1.  Left vertex `u` is `u`, right vertex `v` is `l + v`, the
/// source is `l + r` and the sink `l + r + 1`.
pub open spec fn reduction_edges(l: int, r: int, es: Seq<(usize, usize)>) -> Seq<(usize, usize, u64)> {
    Seq::new(l as nat, |u: int| ((l + r) as usize, u as usize, 1u64)) + Seq::new(
        r as nat,
        |v: int| ((l + v) as usize, (l + r + 1) as usize, 1u64),
    ) + Seq::new(es.len(), |i: int| (es[i].0, (l + es[i].1) as usize, 1u64))
}

/// The pairs read off the reported flows: entries from a left vertex to a
/// right vertex with positive flow, right vertices renumbered from 0.
pub open spec fn matched_pairs(flows: Seq<(usize, usize, i64)>, l: int, r: int) -> Seq<(usize, usize)>
    decreases flows.len(),
{
    if flows.len() == 0 {
        Seq::empty()
    } else {
        let prev = matched_pairs(flows.drop_last(), l, r);
        let e = flows.last();
        if e.0 < l && e.1 >= l && e.1 < l + r && e.2 > 0 {
            prev.push((e.0, (e.1 - l) as usize))
        } else {
            prev
        }
    }
}

/// `matches` is what the reduction yields for a graph with `l` left and `r`
/// right vertices and edges `es`: nothing when a side is empty, else the pairs
/// read off a Ford-Fulkerson result on the reduction.
pub open spec fn matching_outcome(l: int, r: int, es: Seq<(usize, usize)>, matches: Seq<(usize, usize)>) -> bool {
    if l == 0 || r == 0 {
        matches.len() == 0
    } else {
        let n = l + r + 2;
        let tr = reduction_edges(l, r, es);
        exists|v: int, flows: Seq<(usize, usize, i64)>|
            #[trigger] max_flow_result_of(
                n,
                built_slots(n as nat, tr),
                built_edges(n as nat, tr),
                (n - 2) as usize,
                (n - 1) as usize,
                v,
                flows,
            ) && matches == matched_pairs(flows, l, r)
    }
}

/// The flow network of the reduction.
fn reduction_network(graph: &BipartiteGraph) -> (net: FlowNetwork)
    requires
        graph.matching_input_ok(),
        graph.left() > 0,
        graph.right() > 0,
    ensures
        net.wf(),
        net.vertices() == graph.left() + graph.right() + 2,
        net.slots() == built_slots(
            (graph.left() + graph.right() + 2) as nat,
            reduction_edges(graph.left(), graph.right(), graph.edge_list()),
        ),
        net.edge_refs() == built_edges(
            (graph.left() + graph.right() + 2) as nat,
            reduction_edges(graph.left(), graph.right(), graph.edge_list()),
        ),
        net.total_capacity() == graph.left() + graph.right() + graph.edge_list().len(),
{
    proof {
        use_type_invariant(graph);
    }
    let l = graph.left_size;
    let r = graph.right_size;
    let n = l + r + 2;
    let source = n - 2;
    let sink = n - 1;
    let ghost tr = reduction_edges(l as int, r as int, graph.edges@);
    let mut net = FlowNetwork::new(n);
    assert(tr.take(0) =~= Seq::<(usize, usize, u64)>::empty());
    // Source to left vertices
    let mut u: usize = 0;
    while u < l
        invariant
            u <= l,
            n == l + r + 2,
            source == l + r,
            sink == l + r + 1,
            tr == reduction_edges(l as int, r as int, graph.edges@),
            net.wf(),
            net.vertices() == n,
            net.slots() == built_slots(n as nat, tr.take(u as int)),
            net.edge_refs() == built_edges(n as nat, tr.take(u as int)),
            net.total_capacity() == u,
        decreases l - u,
    {
        net.add_edge(source, u, 1);
        proof {
            assert(tr.take(u + 1).drop_last() =~= tr.take(u as int));
            assert(tr.take(u + 1).last() == tr[u as int]);
        }
        u = u + 1;
    }
    // Right vertices to sink
    let mut v: usize = 0;
    while v < r
        invariant
            v <= r,
            n == l + r + 2,
            source == l + r,
            sink == l + r + 1,
            tr == reduction_edges(l as int, r as int, graph.edges@),
            net.wf(),
            net.vertices() == n,
            net.slots() == built_slots(n as nat, tr.take(l + v)),
            net.edge_refs() == built_edges(n as nat, tr.take(l + v)),
            net.total_capacity() == l + v,
        decreases r - v,
    {
        net.add_edge(l + v, sink, 1);
        proof {
            assert(tr.take(l + v + 1).drop_last() =~= tr.take(l + v));
            assert(tr.take(l + v + 1).last() == tr[l + v]);
        }
        v = v + 1;
    }
    // Left to right edges
    let mut i: usize = 0;
    while i < graph.edges.len()
        invariant
            i <= graph.edges@.len(),
            n == l + r + 2,
            l == graph.left(),
            r == graph.right(),
            graph.matching_input_ok(),
            forall|j: int|
                0 <= j < graph.edges@.len() ==> #[trigger] graph.edges@[j].0 < l && graph.edges@[j].1 < r,
            tr == reduction_edges(l as int, r as int, graph.edges@),
            net.wf(),
            net.vertices() == n,
            net.slots() == built_slots(n as nat, tr.take(l + r + i)),
            net.edge_refs() == built_edges(n as nat, tr.take(l + r + i)),
            net.total_capacity() == l + r + i,
        decreases graph.edges@.len() - i,
    {
        let (a, b) = graph.edges[i];
        assert(graph.edges@[i as int].0 < l && graph.edges@[i as int].1 < r);
        net.add_edge(a, l + b, 1);
        proof {
            assert(tr.take(l + r + i + 1).drop_last() =~= tr.take(l + r + i));
            assert(tr.take(l + r + i + 1).last() == tr[l + r + i]);
        }
        i = i + 1;
    }
    assert(tr.take(l + r + graph.edges@.len()) =~= tr);
    net
}

/// The pairs read off reported flows.
fn pairs_of(flows: &Vec<(usize, usize, i64)>, l: usize, r: usize) -> (matches: Vec<(usize, usize)>)
    requires
        l + r <= usize::MAX,
    ensures
        matches@ == matched_pairs(flows@, l as int, r as int),
{
    let mut matches: Vec<(usize, usize)> = Vec::new();
    let mut k: usize = 0;
    while k < flows.len()
        invariant
            k <= flows@.len(),
            l + r <= usize::MAX,
            matches@ == matched_pairs(flows@.take(k as int), l as int, r as int),
        decreases flows@.len() - k,
    {
        let (fu, fv, f) = flows[k];
        if fu < l && fv >= l && fv < l + r && f > 0 {
            matches.push((fu, fv - l));
        }
        proof {
            assert(flows@.take(k + 1).drop_last() =~= flows@.take(k as int));
        }
        k = k + 1;
    }
    assert(flows@.take(flows@.len() as int) =~= flows@);
    matches
}

/// Compute maximum bipartite matching via flow reduction.
///
/// Creates a flow network with super-source connected to all left vertices
/// (capacity 1), edges from left to right (capacity 1), and all right vertices
/// connected to super-sink (capacity 1).
pub fn maximum_matching(graph: &BipartiteGraph) -> (result: MatchingResult)
    requires
        graph.matching_input_ok(),
    ensures
        matching_outcome(graph.left(), graph.right(), graph.edge_list(), result.matches@),
        result.matching_size == result.matches@.len(),
        result.matching_size <= graph.left(),
        result.matching_size <= graph.right(),
        forall|i: int|
            0 <= i < graph.edge_list().len() ==> #[trigger] graph.edge_list()[i].0 < graph.left()
                && graph.edge_list()[i].1 < graph.right(),
        is_maximum_matching(graph.edge_list(), result.matches@),
        is_minimum_cover_size(
            graph.left(),
            graph.right(),
            graph.edge_list(),
            result.matching_size as int,
        ),
{
    proof {
        use_type_invariant(graph);
    }
    if graph.left_size == 0 || graph.right_size == 0 {
        proof {
            lemma_no_edges_matching(graph.left(), graph.right(), graph.edge_list());
            lemma_no_edges_cover(graph.left(), graph.right(), graph.edge_list());
        }
        return MatchingResult { matching_size: 0, matches: Vec::new() };
    }
    let net = reduction_network(graph);
    let n = net.vertex_count();
    let result = max_flow::ford_fulkerson(&net, n - 2, n - 1);
    let matches = pairs_of(&result.flows, graph.left_size, graph.right_size);
    let ghost nn: int = graph.left() + graph.right() + 2;
    let ghost tr = reduction_edges(graph.left(), graph.right(), graph.edge_list());
    assert(max_flow_result_of(
        nn,
        built_slots(nn as nat, tr),
        built_edges(nn as nat, tr),
        (nn - 2) as usize,
        (nn - 1) as usize,
        result.max_flow as int,
        result.flows@,
    ));
    proof {
        {
            let l = graph.left();
            let r = graph.right();
            let eg = graph.edge_list();
            let v = result.max_flow as int;
            let fl = result.flows@;
            assert forall|k: int| 0 <= k < tr.len() implies (#[trigger] tr[k].0 as int) < nn && (tr[k].1 as int) < nn by {
                if k >= l + r {
                    assert(tr.len() == l + r + eg.len());
                    assert(0 <= k - l - r < eg.len());
                    assert(eg[k - l - r].0 < l && eg[k - l - r].1 < r);
                }
            }
            lemma_built_edges(nn as nat, tr);
            assert(is_reduction(l, r, eg, net.slots(), net.edge_refs(), net.owners()));
            let res = choose|res: Seq<Seq<Slot>>|
                #[trigger] ford_fulkerson_outcome(nn, net.slots(), net.edge_refs(), (nn - 2) as usize, (nn - 1) as usize, v, fl, res);
            lemma_matching_shape(l, r, eg, net.slots(), net.edge_refs(), net.owners(), res, v, fl);
            assert forall|o: Seq<(usize, usize)>| #[trigger] is_matching(eg, o) implies o.len() <= matches@.len() by {
                lemma_matching_at_most_max_flow(l, r, eg, net.slots(), net.edge_refs(), net.owners(), v, o);
            }
            lemma_min_cut_is_min_cover(l, r, eg, net.slots(), net.edge_refs(), net.owners(), v);
            lemma_cover_bounds_matching(l, r, eg, v);
        }
    }
    MatchingResult { matching_size: matches.len(), matches }
}

/// A graph with no left or no right vertex has no edge, and its only matching is empty.
proof fn lemma_no_edges_matching(l: int, r: int, eg: Seq<(usize, usize)>)
    requires
        l == 0 || r == 0,
        forall|i: int| #![trigger eg[i]] 0 <= i < eg.len() ==> eg[i].0 < l && eg[i].1 < r,
    ensures
        is_maximum_matching(eg, Seq::<(usize, usize)>::empty()),
{
    assert forall|o: Seq<(usize, usize)>| #[trigger] is_matching(eg, o) implies o.len() <= 0 by {
        if o.len() > 0 {
            assert(eg.contains(o[0]));
            let i = choose|i: int| 0 <= i < eg.len() && eg[i] == o[0];
            assert(0 <= i < eg.len());
            let e = eg[i];
            assert(e.0 < l && e.1 < r);
        }
    }
}

/// The right side is a vertex cover, so the smallest cover is no larger.
proof fn lemma_cover_bounds_matching(l: int, r: int, eg: Seq<(usize, usize)>, k: int)
    requires
        0 <= l,
        0 <= r,
        forall|i: int| #![trigger eg[i]] 0 <= i < eg.len() ==> eg[i].0 < l && eg[i].1 < r,
        is_minimum_cover_size(l, r, eg, k),
    ensures
        k <= r,
{
    let none_l = Seq::new(l as nat, |u: int| false);
    let none_r = Seq::new(r as nat, |w: int| false);
    let cr = flipped(none_r);
    assert forall|i: int| #![trigger eg[i]] 0 <= i < eg.len() implies none_l[eg[i].0 as int] || cr[eg[i].1 as int] by {
        assert(eg[i].0 < l && eg[i].1 < r);
    }
    assert(is_vertex_cover(l, r, eg, none_l, cr));
    lemma_count_none(none_l, l);
    lemma_count_none(none_r, r);
    lemma_count_flipped(none_r, r);
}

/// A graph with no left or no right vertex has no edge, and the empty cover is its smallest.
proof fn lemma_no_edges_cover(l: int, r: int, eg: Seq<(usize, usize)>)
    requires
        l == 0 || r == 0,
        0 <= l,
        0 <= r,
        forall|i: int| #![trigger eg[i]] 0 <= i < eg.len() ==> eg[i].0 < l && eg[i].1 < r,
    ensures
        is_minimum_cover_size(l, r, eg, 0),
{
    let cl = Seq::new(l as nat, |u: int| false);
    let cr = Seq::new(r as nat, |w: int| false);
    assert forall|i: int| #![trigger eg[i]] 0 <= i < eg.len() implies cl[eg[i].0 as int] || cr[eg[i].1 as int] by {
        assert(eg[i].0 < l && eg[i].1 < r);
    }
    assert(is_vertex_cover(l, r, eg, cl, cr));
    lemma_count_none(cl, l);
    lemma_count_none(cr, r);
    assert forall|a: Seq<bool>, b: Seq<bool>| #[trigger] is_vertex_cover(l, r, eg, a, b) implies 0 <= marked(a, b) by {
        lemma_count_nonneg(a, l);
        lemma_count_nonneg(b, r);
    }
}

/// Check if a bipartite graph has a perfect matching.
pub fn has_perfect_matching(graph: &BipartiteGraph) -> (b: bool)
    requires
        graph.matching_input_ok(),
    ensures
        exists|m: Seq<(usize, usize)>|
            #[trigger] matching_outcome(graph.left(), graph.right(), graph.edge_list(), m) && b == (m.len()
                == if graph.left() <= graph.right() {
                graph.left()
            } else {
                graph.right()
            }),
        forall|m: Seq<(usize, usize)>|
            #[trigger] is_maximum_matching(graph.edge_list(), m) ==> (b <==> m.len() == if graph.left()
                <= graph.right() {
                graph.left()
            } else {
                graph.right()
            }),
        b <==> exists|m: Seq<(usize, usize)>|
            #[trigger] is_matching(graph.edge_list(), m) && m.len() == if graph.left() <= graph.right() {
                graph.left()
            } else {
                graph.right()
            },
{
    let result = maximum_matching(graph);
    let min_side = if graph.left_size < graph.right_size { graph.left_size } else { graph.right_size };
    proof {
        lemma_maximum_matchings_same_size(graph.edge_list(), result.matches@);
        if result.matching_size == min_side {
            assert(is_matching(graph.edge_list(), result.matches@));
        }
    }
    result.matching_size == min_side
}

/// Compute a maximum independent set in a bipartite graph using König's theorem.
///
/// The maximum independent set size = n - maximum matching size.
pub fn maximum_independent_set_size(graph: &BipartiteGraph) -> (size: usize)
    requires
        graph.matching_input_ok(),
    ensures
        exists|m: Seq<(usize, usize)>|
            #[trigger] matching_outcome(graph.left(), graph.right(), graph.edge_list(), m) && size == graph.left()
                + graph.right() - m.len(),
        forall|m: Seq<(usize, usize)>|
            #[trigger] is_maximum_matching(graph.edge_list(), m) ==> size == graph.left() + graph.right() - m.len(),
        is_maximum_independent_size(graph.left(), graph.right(), graph.edge_list(), size as int),
{
    proof {
        use_type_invariant(graph);
    }
    let result = maximum_matching(graph);
    proof {
        lemma_maximum_matchings_same_size(graph.edge_list(), result.matches@);
        law_independent_sets_complement_covers(
            graph.left(),
            graph.right(),
            graph.edge_list(),
            result.matching_size as int,
        );
    }
    graph.left_size + graph.right_size - result.matching_size
}

/// Compute the minimum vertex cover size (equals maximum matching by König's theorem).
pub fn minimum_vertex_cover_size(graph: &BipartiteGraph) -> (size: usize)
    requires
        graph.matching_input_ok(),
    ensures
        exists|m: Seq<(usize, usize)>|
            #[trigger] matching_outcome(graph.left(), graph.right(), graph.edge_list(), m) && size == m.len(),
        forall|m: Seq<(usize, usize)>|
            #[trigger] is_maximum_matching(graph.edge_list(), m) ==> size == m.len(),
        is_minimum_cover_size(graph.left(), graph.right(), graph.edge_list(), size as int),
{
    let result = maximum_matching(graph);
    proof {
        {
            lemma_maximum_matchings_same_size(graph.edge_list(), result.matches@);
        }
    }
    result.matching_size
}

/// All maximum matchings of a graph have the size of the one given.
proof fn lemma_maximum_matchings_same_size(eg: Seq<(usize, usize)>, a: Seq<(usize, usize)>)
    requires
        is_maximum_matching(eg, a),
    ensures
        forall|m: Seq<(usize, usize)>| #[trigger] is_maximum_matching(eg, m) ==> m.len() == a.len(),
{
    assert forall|m: Seq<(usize, usize)>| #[trigger] is_maximum_matching(eg, m) implies m.len() == a.len() by {
        assert(is_matching(eg, m));
        assert(is_matching(eg, a));
    }
}

pub(crate) proof fn lemma_matched_pairs_concat(a: Seq<(usize, usize, i64)>, b: Seq<(usize, usize, i64)>, l: int, r: int)
    ensures
        matched_pairs(a + b, l, r) == matched_pairs(a, l, r) + matched_pairs(b, l, r),
    decreases b.len(),
{
    if b.len() > 0 {
        assert((a + b).drop_last() =~= a + b.drop_last());
        lemma_matched_pairs_concat(a, b.drop_last(), l, r);
        assert((a + b).last() == b.last());
    } else {
        assert(a + b =~= a);
        assert(matched_pairs(a, l, r) + matched_pairs(b, l, r) =~= matched_pairs(a, l, r));
    }
}

pub(crate) proof fn lemma_no_left_matches(orow: Seq<Slot>, rrow: Seq<Slot>, u: usize, m: int, l: int, r: int)
    requires
        (u as int) >= l,
        0 <= m <= orow.len(),
    ensures
        matched_pairs(flow_row(orow, rrow, u, m), l, r).len() == 0,
    decreases m,
{
    if m > 0 {
        lemma_no_left_matches(orow, rrow, u, m - 1, l, r);
        let prev = flow_row(orow, rrow, u, m - 1);
        let f = orow[m - 1].1 - rrow[m - 1].1;
        if f != 0 {
            let e = (u, orow[m - 1].0, f as i64);
            assert(prev.push(e).drop_last() =~= prev);
            assert(prev.push(e).last() == e);
        }
    }
}

} // verus!
