//! What the graph cascade reaches: from the best points of a pool along the edges, hop by hop, and which
//! of the points it meets survive.

use crate::graph::{
    add_ids, beam, edges_used, expand, graph_survivors, graph_union, hops_used, ids_below, layers, law_graph_widens_the_pool,
    law_union_rows_are_base_rows, mark, neighbours_of, points_at, points_of, scored_union, unexpanded, union_row, widens, Beam, GraphAdj,
    GraphPolicy, Layers, UnionRows,
};
use crate::order::{ahead, ascending, law_smallest_goes_by_rank, law_smallest_keeps_the_lowest, lemma_ascending, lemma_smallest_all, smallest};
use crate::rerank::{lemma_distinct_below, lemma_pool_pass, lists, pool_pass, slots_exist, PoolPass, NO_POINT};
use crate::simd::{dot, lemma_inner_bound, lemma_row_in_range, row_of, DOT_DIM};
use vstd::prelude::*;

verus! {

/// A walk from a pool along a graph: `ke` edges of each expanded point, `m` expansions per hop.
pub struct Walk<'a> {
    pub src: UnionRows<'a>,
    pub q: Seq<i8>,
    pub pool: Seq<(i32, u32)>,
    pub slot_orig: Seq<u32>,
    pub graph: GraphAdj,
    pub n: nat,
    pub ke: nat,
    pub m: nat,
    pub bestfirst: bool,
}

/// A candidate of the pool holds the point.
pub open spec fn pooled(pool: Seq<(i32, u32)>, slot_orig: Seq<u32>, o: u32) -> bool {
    o != NO_POINT && exists|i: int| 0 <= i < pool.len() && slot_orig[(#[trigger] pool[i]).1 as int] == o
}

/// One candidate for each point of a pool, the best of that point.
pub open spec fn best_of_each(pool: Seq<(i32, u32)>, slot_orig: Seq<u32>, best: Seq<(i32, u32)>) -> bool {
    &&& forall|i: int| 0 <= i < best.len() ==> pool.contains(#[trigger] best[i]) && slot_orig[best[i].1 as int] != NO_POINT
    &&& forall|i: int, j: int| 0 <= i < j < best.len() ==> slot_orig[(#[trigger] best[i]).1 as int] != slot_orig[(#[trigger] best[j]).1 as int]
    &&& forall|j: int| 0 <= j < pool.len() && slot_orig[(#[trigger] pool[j]).1 as int] != NO_POINT ==> exists|i: int| 0 <= i < best.len() && slot_orig[(#[trigger] best[i]).1 as int] == slot_orig[pool[j].1 as int] && best[i].0 <= pool[j].0
}

impl<'a> Walk<'a> {
    /// The walk can be taken.
    pub open spec fn ok(&self) -> bool {
        &&& slots_exist(self.pool, self.slot_orig)
        &&& self.graph.wf(self.n)
        &&& forall|i: int| 0 <= i < self.slot_orig.len() ==> #[trigger] self.slot_orig[i] == NO_POINT || self.slot_orig[i] < self.n
        &&& 1 <= self.ke <= self.graph.k
        &&& self.n <= NO_POINT
    }

    pub open spec fn pass(&self) -> PoolPass {
        pool_pass(self.pool, self.slot_orig, self.pool.len())
    }

    /// The points met after `h` hops.
    pub open spec fn met(&self, h: nat) -> Seq<u32> {
        if h == 0 {
            self.pass().origs
        } else {
            graph_union(self.src, self.q, self.pass(), self.slot_orig, self.graph.adj@, self.graph.k as nat, self.ke, self.m, h, self.bestfirst)
        }
    }

    /// `o` is one of the first `ke` neighbours of `p`.
    pub open spec fn edge(&self, p: u32, o: u32) -> bool {
        exists|j: int| 0 <= j < self.ke && #[trigger] neighbours_of(self.graph.adj@, self.graph.k as nat, p as int)[j] == o
    }

    /// Inner product of the query with the point at place `i` of the points met after `h` hops.
    pub open spec fn inner(&self, h: nat, i: int) -> int {
        dot(self.q, union_row(self.src, self.pass().slots, self.met(h), i))
    }

    /// The points that hop `h` added, with their inner products negated.
    pub open spec fn layer(&self, h: nat) -> Seq<(i32, u32)> {
        let from = self.met((h - 1) as nat).len() as int;
        Seq::new((self.met(h).len() - from) as nat, |x: int| ((-self.inner(h, from + x)) as i32, self.met(h)[from + x]))
    }

    /// The point at place `i` has been expanded in the first `h` hops of a best-first walk.
    pub open spec fn opened(&self, h: nat, i: int) -> bool
        decreases h, 0nat,
    {
        if h == 0 {
            false
        } else {
            self.opened((h - 1) as nat, i) || (0 <= i < self.met((h - 1) as nat).len() && ahead(self.waiting((h - 1) as nat, self.met((h - 1) as nat).len()), ((-self.inner((h - 1) as nat, i)) as i32, i as u32)) < self.m)
        }
    }

    /// The first `n` of the points met after `h` hops that are not expanded yet: inner product, negated,
    /// and place.
    pub open spec fn waiting(&self, h: nat, n: nat) -> Seq<(i32, u32)>
        decreases h, n + 1,
    {
        if n == 0 {
            Seq::empty()
        } else if self.opened(h, n - 1) {
            self.waiting(h, (n - 1) as nat)
        } else {
            self.waiting(h, (n - 1) as nat).push(((-self.inner(h, n - 1)) as i32, (n - 1) as u32))
        }
    }

    /// The points within `h` edges of a point of the pool.
    pub open spec fn within(&self, h: nat) -> Set<u32>
        decreases h,
    {
        if h == 0 {
            Set::new(|o: u32| pooled(self.pool, self.slot_orig, o))
        } else {
            let near = self.within((h - 1) as nat);
            Set::new(|o: u32| near.contains(o) || exists|p: u32| #[trigger] near.contains(p) && self.edge(p, o))
        }
    }
}

proof fn lemma_pool_points(w: Walk)
    requires
        w.ok(),
    ensures
        forall|o: u32| #[trigger] w.met(0).contains(o) <==> pooled(w.pool, w.slot_orig, o),
        best_of_each(w.pool, w.slot_orig, w.pass().best),
        w.met(0).no_duplicates(),
        ids_below(w.met(0), w.n),
{
    let pool = w.pool;
    let so = w.slot_orig;
    lemma_pool_pass(pool, so, pool.len());
    let s = w.pass();
    assert(pool.take(pool.len() as int) =~= pool);
    assert forall|i: int| 0 <= i < s.origs.len() implies #[trigger] s.origs[i] < w.n by {
        assert(so[s.slots[i] as int] == s.origs[i]);
    }
    assert forall|o: u32| #[trigger] w.met(0).contains(o) <==> pooled(pool, so, o) by {
        if s.origs.contains(o) {
            let i = choose|i: int| 0 <= i < s.origs.len() && s.origs[i] == o;
            assert(pool.contains(s.best[i]));
            let j = choose|j: int| 0 <= j < pool.len() && pool[j] == s.best[i];
            assert(so[pool[j].1 as int] == o);
        }
        if pooled(pool, so, o) {
            let j = choose|j: int| 0 <= j < pool.len() && so[(#[trigger] pool[j]).1 as int] == o;
            let i = choose|i: int| 0 <= i < s.origs.len() && #[trigger] s.origs[i] == so[pool[j].1 as int] && s.best[i].0 <= pool[j].0;
            assert(s.origs[i] == o);
        }
    }
    assert forall|i: int, j: int| 0 <= i < j < s.best.len() implies so[(#[trigger] s.best[i]).1 as int] != so[(#[trigger] s.best[j]).1 as int] by {
        assert(s.origs[i] != s.origs[j]);
    }
    assert forall|i: int| 0 <= i < s.best.len() implies pool.contains(#[trigger] s.best[i]) && so[s.best[i].1 as int] != NO_POINT by {
        assert(s.origs[i] != NO_POINT);
    }
    assert forall|j: int| 0 <= j < pool.len() && so[(#[trigger] pool[j]).1 as int] != NO_POINT implies exists|i: int| 0 <= i < s.best.len() && so[(#[trigger] s.best[i]).1 as int] == so[pool[j].1 as int] && s.best[i].0 <= pool[j].0 by {
        let i = choose|i: int| 0 <= i < s.origs.len() && #[trigger] s.origs[i] == so[pool[j].1 as int] && s.best[i].0 <= pool[j].0;
        assert(so[s.best[i].1 as int] == s.origs[i]);
    }
}

/// The points met are distinct, exist, and are only added to.
proof fn lemma_met(w: Walk, h: nat)
    requires
        w.ok(),
    ensures
        w.met(h).no_duplicates(),
        ids_below(w.met(h), w.n),
        w.met(h).len() <= w.n,
        w.met(h).len() <= w.met(h + 1).len(),
        forall|i: int| 0 <= i < w.met(h).len() ==> #[trigger] w.met(h)[i] == w.met(h + 1)[i],
    decreases h,
{
    let (adj, k) = (w.graph.adj@, w.graph.k as nat);
    lemma_pool_points(w);
    if h == 0 {
        law_graph_widens_the_pool(w.src, w.q, w.pool, w.slot_orig, w.graph, w.n, w.ke, w.m, 1, w.bestfirst);
        let (a, b) = (w.met(0), w.met(1));
        assert forall|i: int| 0 <= i < a.len() implies #[trigger] a[i] == b[i] by {
            assert(b.take(a.len() as int)[i] == a[i]);
        }
    } else {
        law_graph_widens_the_pool(w.src, w.q, w.pool, w.slot_orig, w.graph, w.n, w.ke, w.m, h, w.bestfirst);
        let (a, b) = (w.met(h), w.met(h + 1));
        assert(widens(a, b, adj, k, w.ke));
        assert forall|i: int| 0 <= i < a.len() implies #[trigger] a[i] == b[i] by {
            assert(b.take(a.len() as int)[i] == a[i]);
        }
        lemma_widened_below(w, w.met(0), a);
    }
    lemma_distinct_below(w.met(h), w.n);
}

proof fn lemma_widened_below(w: Walk, u: Seq<u32>, v: Seq<u32>)
    requires
        w.ok(),
        widens(u, v, w.graph.adj@, w.graph.k as nat, w.ke),
        ids_below(u, w.n),
    ensures
        ids_below(v, w.n),
{
    lemma_widened_prefix(w, u, v, v.len());
    assert(v.take(v.len() as int) =~= v);
}

proof fn lemma_widened_prefix(w: Walk, u: Seq<u32>, v: Seq<u32>, n: nat)
    requires
        w.ok(),
        widens(u, v, w.graph.adj@, w.graph.k as nat, w.ke),
        ids_below(u, w.n),
        n <= v.len(),
    ensures
        ids_below(v.take(n as int), w.n),
    decreases n,
{
    let (adj, k) = (w.graph.adj@, w.graph.k as nat);
    if n > 0 {
        let m = (n - 1) as nat;
        lemma_widened_prefix(w, u, v, m);
        let x = v[m as int];
        if m < u.len() {
            assert(v.take(u.len() as int)[m as int] == x);
            assert(u[m as int] == x);
        } else {
            let part = v.take(m as int);
            let (y, j) = choose|y: int, j: int| 0 <= y < part.len() && 0 <= j < w.ke && #[trigger] neighbours_of(adj, k, part[y] as int)[j] == x;
            lemma_neighbour_exists(w, part[y], j);
        }
        assert forall|i: int| 0 <= i < n implies #[trigger] v.take(n as int)[i] < w.n by {
            if i < m {
                assert(v.take(m as int)[i] == v.take(n as int)[i]);
            }
        }
    }
}

proof fn lemma_neighbour_exists(w: Walk, p: u32, j: int)
    requires
        w.ok(),
        p < w.n,
        0 <= j < w.graph.k,
    ensures
        neighbours_of(w.graph.adj@, w.graph.k as nat, p as int)[j] < w.n,
{
    let k = w.graph.k as int;
    assert(0 <= p * k && p * k + k <= w.n * k) by (nonlinear_arith)
        requires
            p < w.n,
            k >= 0,
    ;
    assert(w.graph.adj@[p * k + j] < w.n);
}

proof fn lemma_add_ids_hold(u: Seq<u32>, ids: Seq<u32>, n: nat, o: u32)
    ensures
        add_ids(u, ids, n).contains(o) <==> u.contains(o) || exists|j: int| 0 <= j < n && #[trigger] ids[j] == o,
    decreases n,
{
    if n > 0 {
        let m = (n - 1) as nat;
        lemma_add_ids_hold(u, ids, m, o);
        let v = add_ids(u, ids, m);
        let r = add_ids(u, ids, n);
        if v.contains(o) {
            let i = choose|i: int| 0 <= i < v.len() && v[i] == o;
            assert(r[i] == o);
        }
        if r.contains(o) && !v.contains(o) {
            let i = choose|i: int| 0 <= i < r.len() && r[i] == o;
            if i < v.len() {
                assert(v[i] == o);
            }
            assert(ids[m as int] == o);
        }
        if ids[m as int] == o && !v.contains(o) {
            assert(r[v.len() as int] == o);
        }
        if exists|j: int| 0 <= j < n && #[trigger] ids[j] == o {
            let j = choose|j: int| 0 <= j < n && #[trigger] ids[j] == o;
            if j < m {
                assert(ids[j] == o);
            }
        }
    }
}

proof fn lemma_expand_holds(w: Walk, u: Seq<u32>, front: Seq<u32>, n: nat, o: u32)
    requires
        n <= front.len(),
    ensures
        expand(u, front, w.graph.adj@, w.graph.k as nat, w.ke, n).contains(o) <==> u.contains(o) || exists|x: int| 0 <= x < n && w.edge(#[trigger] front[x], o),
    decreases n,
{
    if n > 0 {
        let m = (n - 1) as nat;
        lemma_expand_holds(w, u, front, m, o);
        let (adj, k) = (w.graph.adj@, w.graph.k as nat);
        let before = expand(u, front, adj, k, w.ke, m);
        let ids = neighbours_of(adj, k, front[m as int] as int);
        lemma_add_ids_hold(before, ids, w.ke, o);
        if exists|x: int| 0 <= x < n && w.edge(#[trigger] front[x], o) {
            let x = choose|x: int| 0 <= x < n && w.edge(#[trigger] front[x], o);
            if x < m {
                assert(w.edge(front[x], o));
            } else {
                let j = choose|j: int| 0 <= j < w.ke && #[trigger] neighbours_of(adj, k, front[m as int] as int)[j] == o;
                assert(ids[j] == o);
            }
        }
        if exists|j: int| 0 <= j < w.ke && #[trigger] ids[j] == o {
            let j = choose|j: int| 0 <= j < w.ke && #[trigger] ids[j] == o;
            assert(neighbours_of(adj, k, front[m as int] as int)[j] == o);
            assert(w.edge(front[m as int], o));
        }
    }
}

proof fn lemma_first_hop(w: Walk, o: u32)
    requires
        w.ok(),
        !w.bestfirst,
    ensures
        w.met(1).contains(o) <==> {
            ||| w.met(0).contains(o)
            ||| exists|i: int| 0 <= i < w.pass().best.len() && ahead(w.pass().best, #[trigger] w.pass().best[i]) < w.m && w.edge(w.slot_orig[w.pass().best[i].1 as int], o)
        },
{
    let best = w.pass().best;
    let so = w.slot_orig;
    let front = smallest(best, w.m);
    let seeds = Seq::new(front.len(), |j: int| so[front[j].1 as int]);
    lemma_expand_holds(w, w.pass().origs, seeds, front.len(), o);
    assert(w.met(1) == expand(w.pass().origs, seeds, w.graph.adj@, w.graph.k as nat, w.ke, front.len()));
    if exists|x: int| 0 <= x < front.len() && w.edge(#[trigger] seeds[x], o) {
        let x = choose|x: int| 0 <= x < front.len() && w.edge(#[trigger] seeds[x], o);
        law_smallest_goes_by_rank(best, w.m, front[x]);
        assert(front.contains(front[x]));
        let i = choose|i: int| 0 <= i < best.len() && best[i] == front[x];
        assert(ahead(best, best[i]) < w.m && w.edge(so[best[i].1 as int], o));
    }
    if exists|i: int| 0 <= i < best.len() && ahead(best, #[trigger] best[i]) < w.m && w.edge(so[best[i].1 as int], o) {
        let i = choose|i: int| 0 <= i < best.len() && ahead(best, #[trigger] best[i]) < w.m && w.edge(so[best[i].1 as int], o);
        law_smallest_goes_by_rank(best, w.m, best[i]);
        assert(best.contains(best[i]));
        let x = choose|x: int| 0 <= x < front.len() && front[x] == best[i];
        assert(w.edge(seeds[x], o));
    }
}

/// The first hop of a walk by layers expands the `m` best points of the pool, by its own scores, and
/// meets just their first `ke` neighbours.
pub proof fn law_first_hop_starts_from_the_best(w: Walk, o: u32)
    requires
        w.ok(),
        !w.bestfirst,
    ensures
        exists|best: Seq<(i32, u32)>| #[trigger] best_of_each(w.pool, w.slot_orig, best) && (w.met(1).contains(o) <==> {
            ||| pooled(w.pool, w.slot_orig, o)
            ||| exists|i: int| 0 <= i < best.len() && ahead(best, #[trigger] best[i]) < w.m && w.edge(w.slot_orig[best[i].1 as int], o)
        }),
{
    lemma_pool_points(w);
    lemma_first_hop(w, o);
    assert(w.met(0).contains(o) <==> pooled(w.pool, w.slot_orig, o));
    assert(best_of_each(w.pool, w.slot_orig, w.pass().best));
}

/// Every further hop of a walk by layers expands the `m` points of largest inner product among those
/// that the hop before it added, and meets just their first `ke` neighbours.
pub proof fn law_next_hop_expands_the_last_layer(w: Walk, h: nat, o: u32)
    requires
        w.ok(),
        !w.bestfirst,
        h >= 1,
    ensures
        w.met(h + 1).contains(o) <==> {
            ||| w.met(h).contains(o)
            ||| exists|x: int| 0 <= x < w.layer(h).len() && ahead(w.layer(h), #[trigger] w.layer(h)[x]) < w.m && w.edge(w.layer(h)[x].1, o)
        },
{
    lemma_met(w, (h - 1) as nat);
    let (adj, k) = (w.graph.adj@, w.graph.k as nat);
    let pass = w.pass();
    let best = smallest(pass.best, w.m);
    let seeds = Seq::new(best.len(), |j: int| w.slot_orig[best[j].1 as int]);
    let first = expand(pass.origs, seeds, adj, k, w.ke, best.len());
    let b = Layers { u: first, lo: pass.origs.len() };
    let c = layers(w.src, w.q, pass.slots, adj, k, w.ke, w.m, b, (h - 1) as nat);
    let from = w.met((h - 1) as nat).len();
    assert(c.u == w.met(h));
    assert(c.lo == from) by {
        if h > 1 {
            assert(layers(w.src, w.q, pass.slots, adj, k, w.ke, w.m, b, (h - 2) as nat).u == w.met((h - 1) as nat));
        }
    }
    let s = scored_union(w.src, w.q, pass.slots, c.u);
    let last = s.subrange(c.lo as int, s.len() as int);
    let layer = w.layer(h);
    assert(last =~= layer);
    let front = smallest(layer, w.m);
    let pts = points_of(front);
    assert(w.met(h + 1) == expand(c.u, pts, adj, k, w.ke, front.len())) by {
        assert(layers(w.src, w.q, pass.slots, adj, k, w.ke, w.m, b, h).u == w.met(h + 1));
    }
    lemma_expand_holds(w, c.u, pts, front.len(), o);
    if exists|x: int| 0 <= x < front.len() && w.edge(#[trigger] pts[x], o) {
        let x = choose|x: int| 0 <= x < front.len() && w.edge(#[trigger] pts[x], o);
        law_smallest_goes_by_rank(layer, w.m, front[x]);
        assert(front.contains(front[x]));
        let i = choose|i: int| 0 <= i < layer.len() && layer[i] == front[x];
        assert(ahead(layer, layer[i]) < w.m && w.edge(layer[i].1, o));
    }
    if exists|x: int| 0 <= x < layer.len() && ahead(layer, #[trigger] layer[x]) < w.m && w.edge(layer[x].1, o) {
        let i = choose|x: int| 0 <= x < layer.len() && ahead(layer, #[trigger] layer[x]) < w.m && w.edge(layer[x].1, o);
        law_smallest_goes_by_rank(layer, w.m, layer[i]);
        assert(layer.contains(layer[i]));
        let x = choose|x: int| 0 <= x < front.len() && front[x] == layer[i];
        assert(w.edge(pts[x], o));
    }
}

spec fn beam_at(w: Walk, h: nat) -> Beam {
    beam(w.src, w.q, w.pass().slots, w.graph.adj@, w.graph.k as nat, w.ke, w.m, Beam { u: w.pass().origs, exp: Seq::empty() }, h)
}

proof fn lemma_waiting(w: Walk, h: nat, exp: Seq<bool>, n: nat)
    requires
        n <= w.met(h).len(),
        n <= exp.len(),
        forall|i: int| 0 <= i < n ==> #[trigger] exp[i] == w.opened(h, i),
    ensures
        unexpanded(scored_union(w.src, w.q, w.pass().slots, w.met(h)), exp, n) == w.waiting(h, n),
    decreases n,
{
    if n > 0 {
        lemma_waiting(w, h, exp, (n - 1) as nat);
        assert(exp[n - 1] == w.opened(h, n - 1));
    }
}

proof fn lemma_waiting_holds(w: Walk, h: nat, n: nat, i: int)
    requires
        n <= u32::MAX,
    ensures
        forall|x: int| 0 <= x < w.waiting(h, n).len() ==> {
            let e = #[trigger] w.waiting(h, n)[x];
            e.1 < n && !w.opened(h, e.1 as int) && e.0 == (-w.inner(h, e.1 as int)) as i32
        },
        0 <= i < n && !w.opened(h, i) ==> w.waiting(h, n).contains(((-w.inner(h, i)) as i32, i as u32)),
    decreases n,
{
    if n > 0 {
        let m = (n - 1) as nat;
        lemma_waiting_holds(w, h, m, i);
        let b = w.waiting(h, m);
        let a = w.waiting(h, n);
        assert forall|x: int| 0 <= x < a.len() implies ({
            let e = #[trigger] a[x];
            e.1 < n && !w.opened(h, e.1 as int) && e.0 == (-w.inner(h, e.1 as int)) as i32
        }) by {
            if x < b.len() {
                assert(a[x] == b[x]);
            }
        }
        if 0 <= i < n && !w.opened(h, i) {
            let e = ((-w.inner(h, i)) as i32, i as u32);
            if i < m {
                let x = choose|x: int| 0 <= x < b.len() && b[x] == e;
                assert(a[x] == e);
            } else {
                assert(a[b.len() as int] == e);
            }
        }
    }
}

/// The marks of the beam are the opened places.
proof fn lemma_beam_opens(w: Walk, h: nat)
    requires
        w.ok(),
        w.bestfirst,
    ensures
        beam_at(w, h).u == w.met(h),
        beam_at(w, h).exp.len() == (if h == 0 { 0 } else { w.met((h - 1) as nat).len() }),
        forall|i: int| 0 <= i < beam_at(w, h).exp.len() ==> #[trigger] beam_at(w, h).exp[i] == w.opened(h, i),
        forall|i: int| i < 0 || i >= beam_at(w, h).exp.len() ==> !#[trigger] w.opened(h, i),
    decreases h,
{
    if h > 0 {
        let g = (h - 1) as nat;
        lemma_beam_opens(w, g);
        lemma_met(w, g);
        if g > 0 {
            lemma_met(w, (g - 1) as nat);
        }
        let c = beam_at(w, g);
        let s = scored_union(w.src, w.q, w.pass().slots, c.u);
        let widened = mark(c.exp, c.u.len(), Seq::empty());
        assert forall|i: int| 0 <= i < c.u.len() implies #[trigger] widened[i] == w.opened(g, i) by {
            if i < c.exp.len() {
                assert(c.exp[i] == w.opened(g, i));
            }
        }
        lemma_waiting(w, g, widened, c.u.len());
        let un = w.waiting(g, c.u.len());
        let front = smallest(un, w.m);
        let e = mark(widened, c.u.len(), front);
        assert(beam_at(w, h).exp == e);
        assert forall|i: int| 0 <= i < e.len() implies #[trigger] e[i] == w.opened(h, i) by {
            lemma_waiting_holds(w, g, c.u.len(), i);
            let x = ((-w.inner(g, i)) as i32, i as u32);
            law_smallest_goes_by_rank(un, w.m, x);
            assert(widened[i] == w.opened(g, i));
            if exists|j: int| 0 <= j < front.len() && (#[trigger] front[j]).1 == i {
                let j = choose|j: int| 0 <= j < front.len() && (#[trigger] front[j]).1 == i;
                law_smallest_goes_by_rank(un, w.m, front[j]);
                assert(front.contains(front[j]));
                let y = choose|y: int| 0 <= y < un.len() && un[y] == front[j];
                assert(un[y] == x);
            }
            if !w.opened(g, i) && ahead(un, x) < w.m {
                let j = choose|j: int| 0 <= j < front.len() && front[j] == x;
                assert(front[j].1 == i);
            }
        }
        assert forall|i: int| i < 0 || i >= e.len() implies !#[trigger] w.opened(h, i) by {
            assert(!w.opened(g, i));
        }
    }
}

/// Every hop of a best-first walk expands the `m` points of largest inner product among all that were
/// met and not expanded before, and meets just their first `ke` neighbours.
pub proof fn law_next_hop_expands_the_best_waiting(w: Walk, h: nat, o: u32)
    requires
        w.ok(),
        w.bestfirst,
    ensures
        w.met(h + 1).contains(o) <==> {
            ||| w.met(h).contains(o)
            ||| exists|i: int| 0 <= i < w.met(h).len() && #[trigger] w.opened(h + 1, i) && !w.opened(h, i) && w.edge(w.met(h)[i], o)
        },
{
    lemma_beam_opens(w, h);
    lemma_beam_opens(w, h + 1);
    lemma_met(w, h);
    let (adj, k) = (w.graph.adj@, w.graph.k as nat);
    let c = beam_at(w, h);
    let widened = mark(c.exp, c.u.len(), Seq::empty());
    assert forall|i: int| 0 <= i < c.u.len() implies #[trigger] widened[i] == w.opened(h, i) by {
        if i < c.exp.len() {
            assert(c.exp[i] == w.opened(h, i));
        }
    }
    lemma_waiting(w, h, widened, c.u.len());
    let un = w.waiting(h, c.u.len());
    let front = smallest(un, w.m);
    let pts = points_at(front, c.u);
    assert(w.met(h + 1) == expand(c.u, pts, adj, k, w.ke, front.len()));
    lemma_expand_holds(w, c.u, pts, front.len(), o);
    if exists|x: int| 0 <= x < front.len() && w.edge(#[trigger] pts[x], o) {
        let x = choose|x: int| 0 <= x < front.len() && w.edge(#[trigger] pts[x], o);
        let i = front[x].1 as int;
        law_smallest_goes_by_rank(un, w.m, front[x]);
        assert(front.contains(front[x]));
        let y = choose|y: int| 0 <= y < un.len() && un[y] == front[x];
        lemma_waiting_holds(w, h, c.u.len(), i);
        assert(w.opened(h + 1, i) && !w.opened(h, i) && w.edge(w.met(h)[i], o));
    }
    if exists|i: int| 0 <= i < w.met(h).len() && #[trigger] w.opened(h + 1, i) && !w.opened(h, i) && w.edge(w.met(h)[i], o) {
        let i = choose|i: int| 0 <= i < w.met(h).len() && #[trigger] w.opened(h + 1, i) && !w.opened(h, i) && w.edge(w.met(h)[i], o);
        lemma_waiting_holds(w, h, c.u.len(), i);
        let e = ((-w.inner(h, i)) as i32, i as u32);
        law_smallest_goes_by_rank(un, w.m, e);
        let x = choose|x: int| 0 <= x < front.len() && front[x] == e;
        assert(w.edge(pts[x], o));
    }
}

/// Fewer entries than there are come before a member.
proof fn lemma_ahead_of_member(s: Seq<(i32, u32)>, e: (i32, u32))
    ensures
        ahead(s, e) <= s.len(),
        s.contains(e) ==> ahead(s, e) < s.len(),
    decreases s.len(),
{
    if s.len() > 0 {
        let rest = s.drop_last();
        lemma_ahead_of_member(rest, e);
        if s.contains(e) {
            let i = choose|i: int| 0 <= i < s.len() && s[i] == e;
            if i < rest.len() {
                assert(rest[i] == e);
            }
        }
    }
}

/// The neighbours of what was met before the last hop are met.
proof fn lemma_wide_hop(w: Walk, h: nat)
    requires
        w.ok(),
        w.m >= w.n,
    ensures
        forall|o: u32| #[trigger] w.met(h + 1).contains(o) <==> w.met(h).contains(o) || exists|p: u32| #[trigger] w.met(h).contains(p) && w.edge(p, o),
    decreases h,
{
    lemma_met(w, h);
    lemma_pool_points(w);
    let u = w.met(h);
    if h > 0 {
        lemma_wide_hop(w, (h - 1) as nat);
        lemma_met(w, (h - 1) as nat);
    }
    assert forall|o: u32| #[trigger] w.met(h + 1).contains(o) <==> u.contains(o) || exists|p: u32| #[trigger] u.contains(p) && w.edge(p, o) by {
        if w.bestfirst {
            law_next_hop_expands_the_best_waiting(w, h, o);
            lemma_beam_opens(w, h);
            if exists|i: int| 0 <= i < u.len() && #[trigger] w.opened(h + 1, i) && !w.opened(h, i) && w.edge(u[i], o) {
                let i = choose|i: int| 0 <= i < u.len() && #[trigger] w.opened(h + 1, i) && !w.opened(h, i) && w.edge(u[i], o);
                assert(u.contains(u[i]));
            }
            if exists|p: u32| #[trigger] u.contains(p) && w.edge(p, o) {
                let p = choose|p: u32| #[trigger] u.contains(p) && w.edge(p, o);
                let i = choose|i: int| 0 <= i < u.len() && u[i] == p;
                let un = w.waiting(h, u.len());
                lemma_waiting_holds(w, h, u.len(), i);
                lemma_waiting_short(w, h, u.len());
                lemma_ahead_of_member(un, ((-w.inner(h, i)) as i32, i as u32));
                if w.opened(h, i) {
                    lemma_opened_early(w, h, i);
                    assert(w.met((h - 1) as nat)[i] == u[i]);
                    assert(w.met((h - 1) as nat).contains(p));
                    assert(w.met(h).contains(o));
                } else {
                    assert(w.opened(h + 1, i));
                }
            }
        } else if h == 0 {
            lemma_first_wide_hop(w, o);
        } else {
            law_next_hop_expands_the_last_layer(w, h, o);
            let layer = w.layer(h);
            let from = w.met((h - 1) as nat).len() as int;
            if exists|x: int| 0 <= x < layer.len() && ahead(layer, #[trigger] layer[x]) < w.m && w.edge(layer[x].1, o) {
                let x = choose|x: int| 0 <= x < layer.len() && ahead(layer, #[trigger] layer[x]) < w.m && w.edge(layer[x].1, o);
                assert(u[from + x] == layer[x].1);
                assert(u.contains(layer[x].1));
            }
            if exists|p: u32| #[trigger] u.contains(p) && w.edge(p, o) {
                let p = choose|p: u32| #[trigger] u.contains(p) && w.edge(p, o);
                let i = choose|i: int| 0 <= i < u.len() && u[i] == p;
                if i < from {
                    assert(w.met((h - 1) as nat)[i] == u[i]);
                    assert(w.met((h - 1) as nat).contains(p));
                    assert(w.met(h).contains(o));
                } else {
                    let x = i - from;
                    assert(layer[x].1 == p);
                    assert(layer.contains(layer[x]));
                    lemma_ahead_of_member(layer, layer[x]);
                    assert(ahead(layer, layer[x]) < w.m && w.edge(layer[x].1, o));
                }
            }
        }
    }
}

proof fn lemma_waiting_short(w: Walk, h: nat, n: nat)
    ensures
        w.waiting(h, n).len() <= n,
    decreases n,
{
    if n > 0 {
        lemma_waiting_short(w, h, (n - 1) as nat);
    }
}

/// What is expanded after `h` hops was met before the last of them.
proof fn lemma_opened_early(w: Walk, h: nat, i: int)
    requires
        w.ok(),
        w.bestfirst,
        w.opened(h, i),
    ensures
        h > 0,
        0 <= i < w.met((h - 1) as nat).len(),
{
    lemma_beam_opens(w, h);
}

/// There are no more best candidates than points.
proof fn lemma_best_fit(w: Walk)
    requires
        w.ok(),
    ensures
        w.pass().best.len() <= w.n,
{
    lemma_pool_points(w);
    lemma_pool_pass(w.pool, w.slot_orig, w.pool.len());
    lemma_distinct_below(w.met(0), w.n);
}

/// The points of the best candidates are those of the pool.
proof fn lemma_best_points(w: Walk, p: u32)
    requires
        w.ok(),
    ensures
        w.met(0).contains(p) <==> exists|i: int| 0 <= i < w.pass().best.len() && w.slot_orig[(#[trigger] w.pass().best[i]).1 as int] == p,
{
    let s = w.pass();
    lemma_pool_pass(w.pool, w.slot_orig, w.pool.len());
    if s.origs.contains(p) {
        let i = choose|i: int| 0 <= i < s.origs.len() && s.origs[i] == p;
        assert(w.slot_orig[s.best[i].1 as int] == p);
    }
    if exists|i: int| 0 <= i < s.best.len() && w.slot_orig[(#[trigger] s.best[i]).1 as int] == p {
        let i = choose|i: int| 0 <= i < s.best.len() && w.slot_orig[(#[trigger] s.best[i]).1 as int] == p;
        assert(s.origs[i] == p);
    }
}

proof fn lemma_first_wide_hop(w: Walk, o: u32)
    requires
        w.ok(),
        w.m >= w.n,
        !w.bestfirst,
    ensures
        w.met(1).contains(o) <==> w.met(0).contains(o) || exists|p: u32| #[trigger] w.met(0).contains(p) && w.edge(p, o),
{
    lemma_first_hop(w, o);
    lemma_best_fit(w);
    let so = w.slot_orig;
    let best = w.pass().best;
    if exists|i: int| 0 <= i < best.len() && ahead(best, #[trigger] best[i]) < w.m && w.edge(so[best[i].1 as int], o) {
        let i = choose|i: int| 0 <= i < best.len() && ahead(best, #[trigger] best[i]) < w.m && w.edge(so[best[i].1 as int], o);
        let p = so[best[i].1 as int];
        lemma_best_points(w, p);
        assert(w.met(0).contains(p));
    }
    if exists|p: u32| #[trigger] w.met(0).contains(p) && w.edge(p, o) {
        let p = choose|p: u32| #[trigger] w.met(0).contains(p) && w.edge(p, o);
        lemma_best_points(w, p);
        let i = choose|i: int| 0 <= i < best.len() && so[(#[trigger] best[i]).1 as int] == p;
        lemma_ahead_of_member(best, best[i]);
        assert(best.contains(best[i]));
        assert(ahead(best, best[i]) < w.m && w.edge(so[best[i].1 as int], o));
    }
}

/// A walk that expands every point it meets, in either order, meets after `h` hops just the points
/// within `h` edges of the pool.
pub proof fn law_wide_walk_meets_all_within_its_hops(w: Walk, h: nat, o: u32)
    requires
        w.ok(),
        w.m >= w.n,
    ensures
        w.met(h).contains(o) <==> w.within(h).contains(o),
    decreases h,
{
    lemma_pool_points(w);
    if h == 0 {
        assert(w.met(0).contains(o) <==> pooled(w.pool, w.slot_orig, o));
    } else {
        let g = (h - 1) as nat;
        lemma_wide_hop(w, g);
        assert(h == g + 1);
        assert(w.met(g + 1).contains(o) <==> w.met(g).contains(o) || exists|p: u32| #[trigger] w.met(g).contains(p) && w.edge(p, o));
        law_wide_walk_meets_all_within_its_hops(w, g, o);
        let near = w.within(g);
        assert(w.within(h).contains(o) <==> near.contains(o) || exists|p: u32| #[trigger] near.contains(p) && w.edge(p, o));
        if w.met(h).contains(o) && !w.met(g).contains(o) {
            let p = choose|p: u32| #[trigger] w.met(g).contains(p) && w.edge(p, o);
            law_wide_walk_meets_all_within_its_hops(w, g, p);
            assert(near.contains(p) && w.edge(p, o));
        }
        if w.within(h).contains(o) && !near.contains(o) {
            let p = choose|p: u32| #[trigger] near.contains(p) && w.edge(p, o);
            law_wide_walk_meets_all_within_its_hops(w, g, p);
            assert(w.met(g).contains(p) && w.edge(p, o));
        }
    }
}

/// The index's own copies of rows agree with the base rows.
pub open spec fn copies_agree(src: UnionRows, slot_orig: Seq<u32>, n: nat) -> bool {
    let d = src.d as nat;
    &&& src.raw@.len() > 0 && src.raw_by_orig ==> forall|o: int| 0 <= o < n ==> #[trigger] row_of(src.raw@, d, o) == row_of(src.rows@, d, o)
    &&& src.raw@.len() > 0 && !src.raw_by_orig ==> forall|s: int| 0 <= s < slot_orig.len() && #[trigger] slot_orig[s] != NO_POINT ==> row_of(src.raw@, d, s) == row_of(src.rows@, d, slot_orig[s] as int)
}

/// The walk that a policy asks for: at least one edge of each expanded point, no more than there are.
pub open spec fn walk_of<'a>(src: UnionRows<'a>, q: Seq<i8>, pool: Seq<(i32, u32)>, slot_orig: Seq<u32>, graph: GraphAdj, policy: GraphPolicy, n: nat) -> Walk<'a> {
    Walk {
        src,
        q,
        pool,
        slot_orig,
        graph,
        n,
        ke: if policy.kedge == 0 {
            1
        } else if policy.kedge <= graph.k {
            policy.kedge as nat
        } else {
            graph.k as nat
        },
        m: policy.m as nat,
        bestfirst: policy.bestfirst,
    }
}

/// The survivors of the graph cascade: of the points that the walk meets in its hops, one at least, those
/// of the largest inner products with the query, each once and with that product negated, from the
/// largest on. `kk == 0` keeps all of them.
pub proof fn law_cascade_keeps_the_best_met(src: UnionRows, q: Seq<i8>, pool: Seq<(i32, u32)>, slot_orig: Seq<u32>, graph: GraphAdj, policy: GraphPolicy, n: nat, kk: nat)
    requires
        walk_of(src, q, pool, slot_orig, graph, policy, n).ok(),
        q.len() == src.d,
        src.d <= DOT_DIM,
        n * src.d <= src.rows@.len(),
        copies_agree(src, slot_orig, n),
    ensures
        ({
            let w = walk_of(src, q, pool, slot_orig, graph, policy, n);
            let met = w.met(if policy.hops == 0 { 1 } else { policy.hops as nat });
            let r = graph_survivors(src, q, pool, slot_orig, graph, policy, kk);
            let d = src.d as nat;
            &&& r.len() == (if kk == 0 || met.len() < kk { met.len() } else { kk })
            &&& forall|i: int| 0 <= i < r.len() ==> met.contains((#[trigger] r[i]).1) && r[i].0 == -dot(q, row_of(src.rows@, d, r[i].1 as int))
            &&& forall|i: int, j: int| 0 <= i < j < r.len() ==> (#[trigger] r[i]).1 != (#[trigger] r[j]).1 && dot(q, row_of(src.rows@, d, r[i].1 as int)) >= dot(q, row_of(src.rows@, d, r[j].1 as int))
            &&& forall|i: int, o: u32| 0 <= i < r.len() && #[trigger] met.contains(o) && !lists(r, o) ==> dot(q, row_of(src.rows@, d, (#[trigger] r[i]).1 as int)) >= dot(q, row_of(src.rows@, d, o as int))
        }),
{
    let w = walk_of(src, q, pool, slot_orig, graph, policy, n);
    let h = if policy.hops == 0 {
        1
    } else {
        policy.hops as nat
    };
    let u = w.met(h);
    let d = src.d as nat;
    let pass = w.pass();
    assert(edges_used(policy.kedge as nat, graph.k as nat) == w.ke);
    assert(hops_used(policy.hops as nat) == h);
    lemma_met(w, h);
    lemma_pool_pass(pool, slot_orig, pool.len());
    lemma_pool_points(w);
    let s = scored_union(src, q, pass.slots, u);
    let r = graph_survivors(src, q, pool, slot_orig, graph, policy, kk);
    assert forall|i: int| 0 <= i < u.len() implies #[trigger] s[i] == (-dot(q, row_of(src.rows@, d, u[i] as int)) as i32, u[i]) && s[i].0 == -dot(q, row_of(src.rows@, d, u[i] as int)) by {
        assert(u[i] < n);
        if i < pass.slots.len() {
            lemma_met_prefix(w, h, i);
            assert(slot_orig[pass.slots[i] as int] == pass.origs[i]);
            assert(pass.origs[i] != NO_POINT);
            assert(u[i] == pass.origs[i]);
        }
        law_union_rows_are_base_rows(src, q, pass.slots, u, i);
        lemma_row_in_range(u[i] as int, d as int, n as int, n * d as int);
        lemma_inner_bound(q, row_of(src.rows@, d, u[i] as int), d);
    }
    let t = if kk == 0 {
        s.len()
    } else {
        kk
    };
    if kk == 0 {
        lemma_smallest_all(s, t);
    }
    assert(r == smallest(s, t));
    law_smallest_keeps_the_lowest(s, t);
    lemma_ascending(s);
    assert forall|i: int| 0 <= i < r.len() implies s.contains(#[trigger] r[i]) by {
        law_smallest_goes_by_rank(s, t, r[i]);
        assert(r.contains(r[i]));
    }
    assert forall|i: int| 0 <= i < r.len() implies u.contains((#[trigger] r[i]).1) && r[i].0 == -dot(q, row_of(src.rows@, d, r[i].1 as int)) by {
        assert(s.contains(r[i]));
        let x = choose|x: int| 0 <= x < s.len() && s[x] == r[i];
        assert(s[x] == r[i]);
        assert(u[x] == r[i].1);
    }
    lemma_distinct_kept(s, u, t);
    assert forall|i: int, o: u32| 0 <= i < r.len() && #[trigger] u.contains(o) && !lists(r, o) implies dot(q, row_of(src.rows@, d, (#[trigger] r[i]).1 as int)) >= dot(q, row_of(src.rows@, d, o as int)) by {
        let x = choose|x: int| 0 <= x < u.len() && u[x] == o;
        assert(s[x].1 == o);
        if r.contains(s[x]) {
            let y = choose|y: int| 0 <= y < r.len() && r[y] == s[x];
            assert(r[y].1 == o);
        }
        assert(r[i].0 <= s[x].0);
        assert(r[i].0 == -dot(q, row_of(src.rows@, d, r[i].1 as int)));
    }
    assert forall|i: int, j: int| 0 <= i < j < r.len() implies (#[trigger] r[i]).1 != (#[trigger] r[j]).1 && dot(q, row_of(src.rows@, d, r[i].1 as int)) >= dot(q, row_of(src.rows@, d, r[j].1 as int)) by {
        assert(r[i].0 <= r[j].0);
        assert(r[i].0 == -dot(q, row_of(src.rows@, d, r[i].1 as int)));
        assert(r[j].0 == -dot(q, row_of(src.rows@, d, r[j].1 as int)));
    }
}

/// The points met begin with those of the pool.
proof fn lemma_met_prefix(w: Walk, h: nat, i: int)
    requires
        w.ok(),
        0 <= i < w.met(0).len(),
    ensures
        w.met(0).len() <= w.met(h).len(),
        w.met(h)[i] == w.met(0)[i],
    decreases h,
{
    if h > 0 {
        lemma_met_prefix(w, (h - 1) as nat, i);
        lemma_met(w, (h - 1) as nat);
        assert(w.met((h - 1) as nat)[i] == w.met(h)[i]);
    }
}

/// Distinct points stay distinct in a cut list.
proof fn lemma_distinct_kept(s: Seq<(i32, u32)>, u: Seq<u32>, t: nat)
    requires
        s.len() == u.len(),
        u.no_duplicates(),
        forall|i: int| 0 <= i < s.len() ==> (#[trigger] s[i]).1 == u[i],
    ensures
        forall|i: int, j: int| 0 <= i < j < smallest(s, t).len() ==> (#[trigger] smallest(s, t)[i]).1 != (#[trigger] smallest(s, t)[j]).1,
{
    broadcast use vstd::seq_lib::group_to_multiset_ensures;

    let a = ascending(s);
    lemma_ascending(s);
    assert(s.no_duplicates()) by {
        assert forall|i: int, j: int| 0 <= i < s.len() && 0 <= j < s.len() && i != j implies s[i] != s[j] by {
            assert(u[i] != u[j]);
        }
    }
    s.lemma_multiset_has_no_duplicates();
    a.lemma_multiset_has_no_duplicates_conv();
    assert forall|i: int, j: int| 0 <= i < j < smallest(s, t).len() implies (#[trigger] smallest(s, t)[i]).1 != (#[trigger] smallest(s, t)[j]).1 by {
        assert(a.contains(a[i]) && a.contains(a[j]));
        assert(a.to_multiset().contains(a[i]) && a.to_multiset().contains(a[j]));
        assert(s.contains(a[i]) && s.contains(a[j]));
        let x = choose|x: int| 0 <= x < s.len() && s[x] == a[i];
        let y = choose|y: int| 0 <= y < s.len() && s[y] == a[j];
        assert(a[i] != a[j]);
        assert(u[x] != u[y]);
    }
}

} // verus!
