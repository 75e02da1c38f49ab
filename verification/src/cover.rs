//! Vertex covers and independent sets of a bipartite graph (König's theorem).
//!
//! A cut of the flow reduction and a vertex cover of the graph turn into
//! each other: the left vertices outside the source's side and the right
//! vertices inside it cover every edge that does not cross the cut, and a
//! cover gives a cut that no graph edge crosses.  So the smallest cover has
//! the size of the smallest cut, which is the size of a maximum matching.
//! The complements of the covers are the independent sets.
use vstd::prelude::*;

use crate::flow_spec::{caps_of, cut_cap, cut_cap_upto, is_cut, is_min_cut_value, EdgeRef, Slot};
use crate::matching::{is_reduction, lemma_tr_entry};

verus! {

/// Number of `true` entries among the first `m` of `s`.
pub open spec fn count_true(s: Seq<bool>, m: int) -> int
    decreases m,
{
    if m <= 0 {
        0
    } else {
        count_true(s, m - 1) + (if s[m - 1] { 1int } else { 0 })
    }
}

/// Number of marked vertices on both sides.
pub open spec fn marked(cl: Seq<bool>, cr: Seq<bool>) -> int {
    count_true(cl, cl.len() as int) + count_true(cr, cr.len() as int)
}

/// The marks `cl` on the `l` left and `cr` on the `r` right vertices form a
/// vertex cover: every edge has a marked endpoint.
pub open spec fn is_vertex_cover(l: int, r: int, eg: Seq<(usize, usize)>, cl: Seq<bool>, cr: Seq<bool>) -> bool {
    &&& cl.len() == l
    &&& cr.len() == r
    &&& forall|i: int| #![trigger eg[i]] 0 <= i < eg.len() ==> cl[eg[i].0 as int] || cr[eg[i].1 as int]
}

/// `k` is the size of a smallest vertex cover.
pub open spec fn is_minimum_cover_size(l: int, r: int, eg: Seq<(usize, usize)>, k: int) -> bool {
    &&& exists|cl: Seq<bool>, cr: Seq<bool>| #[trigger] is_vertex_cover(l, r, eg, cl, cr) && marked(cl, cr) == k
    &&& forall|cl: Seq<bool>, cr: Seq<bool>| #[trigger] is_vertex_cover(l, r, eg, cl, cr) ==> k <= marked(cl, cr)
}

/// The marks `il` and `ir` form an independent set: no edge has both
/// endpoints marked.
pub open spec fn is_independent_set(l: int, r: int, eg: Seq<(usize, usize)>, il: Seq<bool>, ir: Seq<bool>) -> bool {
    &&& il.len() == l
    &&& ir.len() == r
    &&& forall|i: int| #![trigger eg[i]] 0 <= i < eg.len() ==> !(il[eg[i].0 as int] && ir[eg[i].1 as int])
}

/// `k` is the size of a largest independent set.
pub open spec fn is_maximum_independent_size(l: int, r: int, eg: Seq<(usize, usize)>, k: int) -> bool {
    &&& exists|il: Seq<bool>, ir: Seq<bool>| #[trigger] is_independent_set(l, r, eg, il, ir) && marked(il, ir) == k
    &&& forall|il: Seq<bool>, ir: Seq<bool>| #[trigger] is_independent_set(l, r, eg, il, ir) ==> marked(il, ir) <= k
}

/// Every mark flipped.
pub open spec fn flipped(s: Seq<bool>) -> Seq<bool> {
    Seq::new(s.len(), |i: int| !s[i])
}

/// The left vertices outside the side `cut`.
pub open spec fn left_out(cut: Seq<bool>, l: int) -> Seq<bool> {
    Seq::new(l as nat, |u: int| !cut[u])
}

/// The right vertices inside the side `cut` (right vertex `w` is vertex `l + w`).
pub open spec fn right_in(cut: Seq<bool>, l: int, r: int) -> Seq<bool> {
    Seq::new(r as nat, |w: int| cut[l + w])
}

/// The graph edges that leave the side `cut`.
pub open spec fn mid_cross(cut: Seq<bool>, l: int, eg: Seq<(usize, usize)>) -> Seq<bool> {
    Seq::new(eg.len(), |i: int| cut[eg[i].0 as int] && !cut[l + eg[i].1])
}

/// The left vertices inside `cut` from which one of the first `k` graph edges leaves it.
pub open spec fn cross_from(cut: Seq<bool>, l: int, eg: Seq<(usize, usize)>, k: int) -> Seq<bool> {
    Seq::new(
        l as nat,
        |u: int| cut[u] && exists|i: int| 0 <= i < k && eg[i].0 as int == u && #[trigger] mid_cross(cut, l, eg)[i],
    )
}

/// The left marks of the cover read off a cut: the left vertices outside it,
/// and those inside it with a graph edge leaving it.
pub open spec fn cut_cover_left(cut: Seq<bool>, l: int, eg: Seq<(usize, usize)>) -> Seq<bool> {
    Seq::new(l as nat, |u: int| !cut[u] || cross_from(cut, l, eg, eg.len() as int)[u])
}

/// The side of the source's cut that a cover defines: the source, the
/// unmarked left vertices and the marked right vertices.
pub open spec fn cover_cut(l: int, r: int, cl: Seq<bool>, cr: Seq<bool>) -> Seq<bool> {
    Seq::new(
        (l + r + 2) as nat,
        |x: int|
            if x < l {
                !cl[x]
            } else if x < l + r {
                cr[x - l]
            } else {
                x == l + r
            },
    )
}

pub(crate) proof fn lemma_count_nonneg(s: Seq<bool>, m: int)
    ensures
        0 <= count_true(s, m),
    decreases m,
{
    if m > 0 {
        lemma_count_nonneg(s, m - 1);
    }
}

/// Flipping every mark of the first `m` leaves the others.
pub(crate) proof fn lemma_count_flipped(s: Seq<bool>, m: int)
    requires
        0 <= m <= s.len(),
    ensures
        count_true(flipped(s), m) == m - count_true(s, m),
    decreases m,
{
    if m > 0 {
        lemma_count_flipped(s, m - 1);
    }
}

/// Marks that lie in `a` or `b` number at most those of `a` and `b` together.
proof fn lemma_count_union(a: Seq<bool>, b: Seq<bool>, c: Seq<bool>, m: int)
    requires
        forall|i: int| 0 <= i < m ==> #[trigger] c[i] ==> a[i] || b[i],
    ensures
        count_true(c, m) <= count_true(a, m) + count_true(b, m),
    decreases m,
{
    if m > 0 {
        lemma_count_union(a, b, c, m - 1);
        assert(c[m - 1] ==> a[m - 1] || b[m - 1]);
    }
}

/// Marks that lie in `a` or at `u0` number at most one more than those of `a`.
proof fn lemma_count_plus_one(a: Seq<bool>, c: Seq<bool>, u0: int, m: int)
    requires
        forall|i: int| 0 <= i < m ==> #[trigger] c[i] ==> a[i] || i == u0,
    ensures
        count_true(c, m) <= count_true(a, m) + (if 0 <= u0 < m { 1int } else { 0 }),
    decreases m,
{
    if m > 0 {
        lemma_count_plus_one(a, c, u0, m - 1);
        assert(c[m - 1] ==> a[m - 1] || m - 1 == u0);
    }
}

pub(crate) proof fn lemma_count_none(c: Seq<bool>, m: int)
    requires
        forall|i: int| 0 <= i < m ==> !#[trigger] c[i],
    ensures
        count_true(c, m) == 0,
    decreases m,
{
    if m > 0 {
        lemma_count_none(c, m - 1);
        assert(!c[m - 1]);
    }
}

/// The capacity of a cut of the reduction, block by block: the source's
/// edges to left vertices outside it, the edges of right vertices inside it
/// to the sink, and the graph edges that leave it, each of capacity 1.
proof fn lemma_cut_cap_blocks(
    l: int,
    r: int,
    eg: Seq<(usize, usize)>,
    orig: Seq<Seq<Slot>>,
    es: Seq<EdgeRef>,
    ow: Seq<Seq<(int, bool)>>,
    cut: Seq<bool>,
    m: int,
)
    requires
        is_reduction(l, r, eg, orig, es, ow),
        is_cut(l + r + 2, cut, l + r, l + r + 1),
        0 <= m <= es.len(),
    ensures
        cut_cap_upto(es, caps_of(orig, es), cut, m) == count_true(left_out(cut, l), if m < l { m } else { l })
            + count_true(right_in(cut, l, r), if m < l { 0 } else if m < l + r { m - l } else { r })
            + count_true(mid_cross(cut, l, eg), if m < l + r { 0 } else { m - l - r }),
    decreases m,
{
    if m > 0 {
        lemma_cut_cap_blocks(l, r, eg, orig, es, ow, cut, m - 1);
        lemma_tr_entry(l, r, eg, m - 1);
        assert(es[m - 1] == es[m - 1]);
        assert(caps_of(orig, es)[m - 1] == 1);
    }
}

/// A vertex cover defines a cut whose capacity is the cover's size.
proof fn lemma_cover_gives_cut(
    l: int,
    r: int,
    eg: Seq<(usize, usize)>,
    orig: Seq<Seq<Slot>>,
    es: Seq<EdgeRef>,
    ow: Seq<Seq<(int, bool)>>,
    cl: Seq<bool>,
    cr: Seq<bool>,
)
    requires
        is_reduction(l, r, eg, orig, es, ow),
        is_vertex_cover(l, r, eg, cl, cr),
    ensures
        is_cut(l + r + 2, cover_cut(l, r, cl, cr), l + r, l + r + 1),
        cut_cap(es, caps_of(orig, es), cover_cut(l, r, cl, cr)) == marked(cl, cr),
{
    let cut = cover_cut(l, r, cl, cr);
    assert(left_out(cut, l) =~= cl);
    assert(right_in(cut, l, r) =~= cr);
    let mc = mid_cross(cut, l, eg);
    assert forall|i: int| 0 <= i < eg.len() implies !#[trigger] mc[i] by {
        assert(eg[i].0 < l && eg[i].1 < r);
        assert(cl[eg[i].0 as int] || cr[eg[i].1 as int]);
    }
    lemma_count_none(mc, eg.len() as int);
    lemma_cut_cap_blocks(l, r, eg, orig, es, ow, cut, es.len() as int);
}

/// The left vertices inside a cut with one of the first `k` graph edges
/// leaving it are no more than those edges.
proof fn lemma_cross_from_count(cut: Seq<bool>, l: int, eg: Seq<(usize, usize)>, k: int)
    requires
        0 <= k <= eg.len(),
        0 <= l,
    ensures
        count_true(cross_from(cut, l, eg, k), l) <= count_true(mid_cross(cut, l, eg), k),
    decreases k,
{
    let mc = mid_cross(cut, l, eg);
    if k == 0 {
        lemma_count_none(cross_from(cut, l, eg, 0), l);
    } else {
        lemma_cross_from_count(cut, l, eg, k - 1);
        let prev = cross_from(cut, l, eg, k - 1);
        let cur = cross_from(cut, l, eg, k);
        if mc[k - 1] {
            let u0 = eg[k - 1].0 as int;
            assert forall|u: int| 0 <= u < l && #[trigger] cur[u] implies prev[u] || u == u0 by {
                if u != u0 {
                    let i = choose|i: int| 0 <= i < k && eg[i].0 as int == u && #[trigger] mc[i];
                    assert(i != k - 1);
                    assert(0 <= i < k - 1 && eg[i].0 as int == u && mc[i]);
                }
            }
            lemma_count_plus_one(prev, cur, u0, l);
        } else {
            assert forall|u: int| 0 <= u < l && #[trigger] cur[u] implies prev[u] || u == -1 by {
                let i = choose|i: int| 0 <= i < k && eg[i].0 as int == u && #[trigger] mc[i];
                assert(0 <= i < k - 1 && eg[i].0 as int == u && mc[i]);
            }
            lemma_count_plus_one(prev, cur, -1, l);
        }
    }
}

/// Every cut of the reduction defines a vertex cover no larger than its capacity.
proof fn lemma_cut_gives_cover(
    l: int,
    r: int,
    eg: Seq<(usize, usize)>,
    orig: Seq<Seq<Slot>>,
    es: Seq<EdgeRef>,
    ow: Seq<Seq<(int, bool)>>,
    cut: Seq<bool>,
)
    requires
        is_reduction(l, r, eg, orig, es, ow),
        is_cut(l + r + 2, cut, l + r, l + r + 1),
    ensures
        is_vertex_cover(l, r, eg, cut_cover_left(cut, l, eg), right_in(cut, l, r)),
        marked(cut_cover_left(cut, l, eg), right_in(cut, l, r)) <= cut_cap(es, caps_of(orig, es), cut),
{
    let cl = cut_cover_left(cut, l, eg);
    let cr = right_in(cut, l, r);
    let mc = mid_cross(cut, l, eg);
    let ne = eg.len() as int;
    let d = cross_from(cut, l, eg, ne);
    assert forall|i: int| #![trigger eg[i]] 0 <= i < eg.len() implies cl[eg[i].0 as int] || cr[eg[i].1 as int] by {
        assert(eg[i].0 < l && eg[i].1 < r);
        let u = eg[i].0 as int;
        if cut[u] && !cut[l + eg[i].1] {
            assert(mc[i]);
            assert(d[u]);
        }
    }
    assert forall|u: int| 0 <= u < l && #[trigger] cl[u] implies left_out(cut, l)[u] || d[u] by {}
    lemma_count_union(left_out(cut, l), d, cl, l);
    lemma_cross_from_count(cut, l, eg, ne);
    lemma_cut_cap_blocks(l, r, eg, orig, es, ow, cut, es.len() as int);
}

/// König's theorem on the reduction: where `v` is the smallest capacity of a
/// cut between its source and its sink, `v` is the size of a smallest
/// vertex cover of the graph.
pub proof fn lemma_min_cut_is_min_cover(
    l: int,
    r: int,
    eg: Seq<(usize, usize)>,
    orig: Seq<Seq<Slot>>,
    es: Seq<EdgeRef>,
    ow: Seq<Seq<(int, bool)>>,
    v: int,
)
    requires
        is_reduction(l, r, eg, orig, es, ow),
        is_min_cut_value(l + r + 2, es, caps_of(orig, es), l + r, l + r + 1, v),
    ensures
        is_minimum_cover_size(l, r, eg, v),
{
    let n = l + r + 2;
    let caps = caps_of(orig, es);
    assert forall|cl: Seq<bool>, cr: Seq<bool>| #[trigger] is_vertex_cover(l, r, eg, cl, cr) implies v <= marked(cl, cr) by {
        lemma_cover_gives_cut(l, r, eg, orig, es, ow, cl, cr);
    }
    let cut = choose|cut: Seq<bool>| is_cut(n, cut, l + r, l + r + 1) && cut_cap(es, caps, cut) == v;
    lemma_cut_gives_cover(l, r, eg, orig, es, ow, cut);
    let cl = cut_cover_left(cut, l, eg);
    let cr = right_in(cut, l, r);
    assert(is_vertex_cover(l, r, eg, cl, cr));
    assert(v <= marked(cl, cr));
}

/// The complements of the smallest vertex covers are the largest
/// independent sets: where `k` is the size of a smallest cover, `l + r - k`
/// is the size of a largest independent set.
pub proof fn law_independent_sets_complement_covers(l: int, r: int, eg: Seq<(usize, usize)>, k: int)
    requires
        0 <= l,
        0 <= r,
        forall|i: int| #![trigger eg[i]] 0 <= i < eg.len() ==> eg[i].0 < l && eg[i].1 < r,
        is_minimum_cover_size(l, r, eg, k),
    ensures
        is_maximum_independent_size(l, r, eg, l + r - k),
{
    let (cl, cr) = choose|cl: Seq<bool>, cr: Seq<bool>| #[trigger] is_vertex_cover(l, r, eg, cl, cr) && marked(cl, cr) == k;
    let il = flipped(cl);
    let ir = flipped(cr);
    lemma_count_flipped(cl, l);
    lemma_count_flipped(cr, r);
    assert forall|i: int| #![trigger eg[i]] 0 <= i < eg.len() implies !(il[eg[i].0 as int] && ir[eg[i].1 as int]) by {
        assert(cl[eg[i].0 as int] || cr[eg[i].1 as int]);
    }
    assert(is_independent_set(l, r, eg, il, ir));
    assert forall|a: Seq<bool>, b: Seq<bool>| #[trigger] is_independent_set(l, r, eg, a, b) implies marked(a, b) <= l + r - k by {
        let ca = flipped(a);
        let cb = flipped(b);
        assert forall|i: int| #![trigger eg[i]] 0 <= i < eg.len() implies ca[eg[i].0 as int] || cb[eg[i].1 as int] by {
            assert(!(a[eg[i].0 as int] && b[eg[i].1 as int]));
        }
        assert(is_vertex_cover(l, r, eg, ca, cb));
        lemma_count_flipped(a, l);
        lemma_count_flipped(b, r);
    }
}

} // verus!
