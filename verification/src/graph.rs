//! Graph-augmented rerank: the survivor pool is widened by the neighbours of its best points in a
//! precomputed neighbour graph before the exact int8 rescore.
use vstd::prelude::*;
use vstd::slice::slice_subrange;
use crate::bytes::{read_words, word_at};
use crate::order::{smallest, ascending, keep_smallest, sort_ascending, lemma_smallest};
use crate::rerank::{pool_pass, collect_pool, slots_exist, table_has, lemma_distinct_below, lemma_pool_pass, NO_POINT, PoolPass};
use crate::simd::{dot, row_of, negdot_i8, DOT_DIM};
use crate::table::IdTable;

verus! {

/// Neighbour graph: `k` neighbour ids per base row, row-major.
pub struct GraphAdj {
    pub k: usize,
    pub adj: Vec<u32>,
}

/// Neighbours of row `o`.
pub open spec fn neighbours_of(adj: Seq<u32>, k: nat, o: int) -> Seq<u32> {
    adj.subrange(o * k, o * k + k)
}

impl GraphAdj {
    /// Every row has `k` neighbours, all of them base rows.
    pub open spec fn wf(&self, n: nat) -> bool {
        &&& self.k >= 1
        &&& self.adj@.len() == n * self.k
        &&& forall|i: int| 0 <= i < self.adj@.len() ==> #[trigger] self.adj@[i] < n
        &&& n <= NO_POINT
    }

    /// Read an `n` by `k` graph from its raw little-endian bytes.
    pub fn load(bytes: &[u8], n: usize, k: usize) -> (r: GraphAdj)
        requires
            bytes@.len() == n * k * 4,
        ensures
            r.k == k,
            r.adj@.len() == n * k,
            forall|i: int| 0 <= i < n * k ==> #[trigger] r.adj@[i] == word_at(bytes@, i),
    {
        let total: usize = bytes.len() / 4;
        assert(total == n * k);
        GraphAdj { k, adj: read_words(bytes, total) }
    }

    /// Neighbours of row `orig`.
    pub fn neighbours(&self, orig: usize) -> (r: &[u32])
        requires
            (orig + 1) * self.k <= self.adj@.len(),
        ensures
            r@ == neighbours_of(self.adj@, self.k as nat, orig as int),
    {
        let alen: usize = self.adj.len();
        proof {
            let o = orig as int;
            let kk = self.k as int;
            assert((o + 1) * kk == o * kk + kk && 0 <= o * kk) by (nonlinear_arith)
                requires
                    o >= 0,
                    kk >= 0,
            ;
        }
        slice_subrange(self.adj.as_slice(), orig * self.k, orig * self.k + self.k)
    }
}

/// `u` with the ids among the first `n` of `ids` that it lacks appended in order.
pub open spec fn add_ids(u: Seq<u32>, ids: Seq<u32>, n: nat) -> Seq<u32>
    decreases n,
{
    if n == 0 {
        u
    } else {
        let v = add_ids(u, ids, (n - 1) as nat);
        if v.contains(ids[n - 1]) {
            v
        } else {
            v.push(ids[n - 1])
        }
    }
}

/// `u` widened by the first `ke` neighbours of each of the first `n` points of a frontier.
pub open spec fn expand(u: Seq<u32>, frontier: Seq<u32>, adj: Seq<u32>, k: nat, ke: nat, n: nat) -> Seq<u32>
    decreases n,
{
    if n == 0 {
        u
    } else {
        add_ids(
            expand(u, frontier, adj, k, ke, (n - 1) as nat),
            neighbours_of(adj, k, frontier[n - 1] as int),
            ke,
        )
    }
}

/// Where the rows of union members are read: the base rows, or the index's own copy of them (by
/// point, or by slot for the members that came from the pool).
pub struct UnionRows<'a> {
    pub rows: &'a [i8],
    pub raw: &'a [i8],
    pub raw_by_orig: bool,
    pub d: usize,
}

/// Row of union member `i`; `slots` are the slots of the pool members, which lead the union.
pub open spec fn union_row(src: UnionRows, slots: Seq<u32>, u: Seq<u32>, i: int) -> Seq<i8> {
    if src.raw@.len() > 0 && src.raw_by_orig {
        row_of(src.raw@, src.d as nat, u[i] as int)
    } else if src.raw@.len() > 0 && i < slots.len() {
        row_of(src.raw@, src.d as nat, slots[i] as int)
    } else {
        row_of(src.rows@, src.d as nat, u[i] as int)
    }
}

/// Union members with their exact negated inner products.
pub open spec fn scored_union(src: UnionRows, q: Seq<i8>, slots: Seq<u32>, u: Seq<u32>) -> Seq<(i32, u32)> {
    Seq::new(u.len(), |i: int| (-dot(q, union_row(src, slots, u, i)) as i32, u[i]))
}

/// The rows of every id below `n` and of every slot in `slots` are stored.
pub open spec fn union_rows_stored(src: UnionRows, slots: Seq<u32>, n: nat) -> bool {
    &&& n * src.d <= src.rows@.len()
    &&& src.raw@.len() > 0 && src.raw_by_orig ==> n * src.d <= src.raw@.len()
    &&& src.raw@.len() > 0 && !src.raw_by_orig ==> forall|i: int| 0 <= i < slots.len() ==> (#[trigger] slots[i] + 1) * src.d <= src.raw@.len()
    &&& src.d <= DOT_DIM
}

/// Where the index's own copies agree with the base rows, the score of a union member is that of
/// its base row.
pub proof fn law_union_rows_are_base_rows(src: UnionRows, q: Seq<i8>, slots: Seq<u32>, u: Seq<u32>, i: int)
    requires
        0 <= i < u.len(),
        src.raw@.len() > 0 && src.raw_by_orig ==> row_of(src.raw@, src.d as nat, u[i] as int) == row_of(src.rows@, src.d as nat, u[i] as int),
        src.raw@.len() > 0 && !src.raw_by_orig && i < slots.len() ==> row_of(src.raw@, src.d as nat, slots[i] as int) == row_of(src.rows@, src.d as nat, u[i] as int),
    ensures
        scored_union(src, q, slots, u)[i] == (-dot(q, row_of(src.rows@, src.d as nat, u[i] as int)) as i32, u[i]),
{
}

/// `(score, position)` of the unexpanded members among the first `n`.
pub open spec fn unexpanded(s: Seq<(i32, u32)>, exp: Seq<bool>, n: nat) -> Seq<(i32, u32)>
    decreases n,
{
    if n == 0 {
        Seq::empty()
    } else if exp[n - 1] {
        unexpanded(s, exp, (n - 1) as nat)
    } else {
        unexpanded(s, exp, (n - 1) as nat).push((s[n - 1].0, (n - 1) as u32))
    }
}

/// The points at the positions of a frontier.
pub open spec fn points_at(front: Seq<(i32, u32)>, u: Seq<u32>) -> Seq<u32> {
    Seq::new(front.len(), |j: int| u[front[j].1 as int])
}

/// The points of a scored list.
pub open spec fn points_of(front: Seq<(i32, u32)>) -> Seq<u32> {
    Seq::new(front.len(), |j: int| front[j].1)
}

/// `exp`, widened to `len`, with the positions of a frontier marked.
pub open spec fn mark(exp: Seq<bool>, len: nat, front: Seq<(i32, u32)>) -> Seq<bool> {
    Seq::new(len, |i: int| (i < exp.len() && exp[i]) || exists|j: int| 0 <= j < front.len() && (#[trigger] front[j]).1 == i)
}

/// Union and expansion marks of the beam.
pub struct Beam {
    pub u: Seq<u32>,
    pub exp: Seq<bool>,
}

/// One round of the best-first beam: the `m` best unexpanded members are expanded.
pub open spec fn beam_round(src: UnionRows, q: Seq<i8>, slots: Seq<u32>, adj: Seq<u32>, k: nat, ke: nat, m: nat, b: Beam) -> Beam {
    let s = scored_union(src, q, slots, b.u);
    let widened = mark(b.exp, b.u.len(), Seq::empty());
    let front = smallest(unexpanded(s, widened, b.u.len()), m);
    Beam {
        u: expand(b.u, points_at(front, b.u), adj, k, ke, front.len()),
        exp: mark(widened, b.u.len(), front),
    }
}

/// `hops` rounds of the best-first beam.
pub open spec fn beam(src: UnionRows, q: Seq<i8>, slots: Seq<u32>, adj: Seq<u32>, k: nat, ke: nat, m: nat, b: Beam, hops: nat) -> Beam
    decreases hops,
{
    if hops == 0 {
        b
    } else {
        beam_round(src, q, slots, adj, k, ke, m, beam(src, q, slots, adj, k, ke, m, b, (hops - 1) as nat))
    }
}

/// Union of the layered expansion, and where its last layer starts.
pub struct Layers {
    pub u: Seq<u32>,
    pub lo: nat,
}

/// One layer: the `m` best of the last layer are expanded, and what they add is the next layer.
pub open spec fn layer_round(src: UnionRows, q: Seq<i8>, slots: Seq<u32>, adj: Seq<u32>, k: nat, ke: nat, m: nat, b: Layers) -> Layers {
    let s = scored_union(src, q, slots, b.u);
    let front = smallest(s.subrange(b.lo as int, s.len() as int), m);
    Layers { u: expand(b.u, points_of(front), adj, k, ke, front.len()), lo: b.u.len() }
}

/// `n` layers.
pub open spec fn layers(src: UnionRows, q: Seq<i8>, slots: Seq<u32>, adj: Seq<u32>, k: nat, ke: nat, m: nat, b: Layers, n: nat) -> Layers
    decreases n,
{
    if n == 0 {
        b
    } else {
        layer_round(src, q, slots, adj, k, ke, m, layers(src, q, slots, adj, k, ke, m, b, (n - 1) as nat))
    }
}

/// The candidate union of a pool: the points of the pool, widened through the graph in `hops` hops
/// of at most `m` expansions each.
pub open spec fn graph_union(
    src: UnionRows,
    q: Seq<i8>,
    pass: PoolPass,
    slot_orig: Seq<u32>,
    adj: Seq<u32>,
    k: nat,
    ke: nat,
    m: nat,
    hops: nat,
    bestfirst: bool,
) -> Seq<u32> {
    if bestfirst {
        beam(src, q, pass.slots, adj, k, ke, m, Beam { u: pass.origs, exp: Seq::empty() }, hops).u
    } else {
        let front = smallest(pass.best, m);
        let seeds = Seq::new(front.len(), |j: int| slot_orig[front[j].1 as int]);
        let u = expand(pass.origs, seeds, adj, k, ke, front.len());
        layers(src, q, pass.slots, adj, k, ke, m, Layers { u, lo: pass.origs.len() }, (hops - 1) as nat).u
    }
}

proof fn lemma_push_contains(u: Seq<u32>, x: u32, y: u32)
    ensures
        u.push(x).contains(y) <==> (u.contains(y) || x == y),
{
    if u.contains(y) {
        let k = choose|k: int| 0 <= k < u.len() && u[k] == y;
        assert(u.push(x)[k] == y);
    }
    if x == y {
        assert(u.push(x)[u.len() as int] == y);
    }
    if u.push(x).contains(y) {
        let k = choose|k: int| 0 <= k < u.push(x).len() && u.push(x)[k] == y;
        if k < u.len() {
            assert(u[k] == y);
        }
    }
}

proof fn lemma_add_ids(u: Seq<u32>, ids: Seq<u32>, n: nat, lim: nat)
    requires
        n <= ids.len(),
        forall|i: int| 0 <= i < u.len() ==> #[trigger] u[i] < lim,
        forall|i: int| 0 <= i < ids.len() ==> #[trigger] ids[i] < lim,
    ensures
        u.len() <= add_ids(u, ids, n).len() <= u.len() + n,
        forall|i: int| 0 <= i < u.len() ==> #[trigger] add_ids(u, ids, n)[i] == u[i],
        forall|i: int| 0 <= i < add_ids(u, ids, n).len() ==> #[trigger] add_ids(u, ids, n)[i] < lim,
    decreases n,
{
    if n > 0 {
        lemma_add_ids(u, ids, (n - 1) as nat, lim);
        assert(ids[n - 1] < lim);
    }
}

proof fn lemma_nbrs(adj: Seq<u32>, k: nat, o: int, n: nat)
    requires
        adj.len() == n * k,
        forall|i: int| 0 <= i < adj.len() ==> #[trigger] adj[i] < n,
        0 <= o < n,
    ensures
        neighbours_of(adj, k, o).len() == k,
        forall|i: int| 0 <= i < k ==> #[trigger] neighbours_of(adj, k, o)[i] < n,
        (o + 1) * k <= adj.len(),
{
    assert(0 <= o * k && o * k + k <= n * k && (o + 1) * k == o * k + k) by (nonlinear_arith)
        requires
            0 <= o < n,
            0 <= k,
    ;
}

/// Expansion keeps the union, adds at most `ke` ids per frontier point, and stays below `lim`.
pub proof fn lemma_expand(u: Seq<u32>, frontier: Seq<u32>, adj: Seq<u32>, k: nat, ke: nat, n: nat, lim: nat)
    requires
        ke <= k,
        n <= frontier.len(),
        adj.len() == lim * k,
        forall|i: int| 0 <= i < adj.len() ==> #[trigger] adj[i] < lim,
        forall|i: int| 0 <= i < u.len() ==> #[trigger] u[i] < lim,
        forall|i: int| 0 <= i < frontier.len() ==> #[trigger] frontier[i] < lim,
    ensures
        u.len() <= expand(u, frontier, adj, k, ke, n).len() <= u.len() + n * ke,
        forall|i: int| 0 <= i < u.len() ==> #[trigger] expand(u, frontier, adj, k, ke, n)[i] == u[i],
        forall|i: int| 0 <= i < expand(u, frontier, adj, k, ke, n).len() ==> #[trigger] expand(u, frontier, adj, k, ke, n)[i] < lim,
    decreases n,
{
    if n > 0 {
        let m = (n - 1) as nat;
        lemma_expand(u, frontier, adj, k, ke, m, lim);
        assert(frontier[n - 1] < lim);
        lemma_nbrs(adj, k, frontier[n - 1] as int, lim);
        let e = expand(u, frontier, adj, k, ke, m);
        lemma_add_ids(e, neighbours_of(adj, k, frontier[n - 1] as int), ke, lim);
        assert(n * ke == m * ke + ke) by (nonlinear_arith)
            requires
                n == m + 1,
        ;
        assert forall|i: int| 0 <= i < u.len() implies #[trigger] expand(u, frontier, adj, k, ke, n)[i] == u[i] by {
            assert(e[i] == u[i]);
        }
    }
}

/// Append the ids of `nbs[..ke]` that the union lacks.
fn add_neighbours(table: &mut IdTable, u: &mut Vec<u32>, nbs: &[u32], ke: usize, lim: Ghost<nat>)
    requires
        table_has(*old(table), old(u)@),
        ke <= nbs@.len(),
        old(u)@.len() + ke < old(table).capacity(),
        lim@ <= NO_POINT,
        forall|i: int| 0 <= i < old(u)@.len() ==> #[trigger] old(u)@[i] < lim@,
        forall|i: int| 0 <= i < nbs@.len() ==> #[trigger] nbs@[i] < lim@,
    ensures
        table_has(*final(table), final(u)@),
        final(table).capacity() == old(table).capacity(),
        final(u)@ == add_ids(old(u)@, nbs@, ke as nat),
{
    let mut i: usize = 0;
    while i < ke
        invariant
            i <= ke,
            ke <= nbs@.len(),
            table_has(*table, u@),
            table.capacity() == old(table).capacity(),
            old(u)@.len() + ke < old(table).capacity(),
            lim@ <= NO_POINT,
            forall|j: int| 0 <= j < old(u)@.len() ==> #[trigger] old(u)@[j] < lim@,
            forall|j: int| 0 <= j < nbs@.len() ==> #[trigger] nbs@[j] < lim@,
            u@ == add_ids(old(u)@, nbs@, i as nat),
        decreases ke - i,
    {
        proof {
            lemma_add_ids(old(u)@, nbs@, i as nat, lim@);
            assert(nbs@[i as int] < lim@);
        }
        let nb: u32 = nbs[i];
        let ghost u0 = u@;
        let added = table.add_new(nb, NO_POINT);
        if added {
            u.push(nb);
            assert forall|o: u32| #[trigger] table@.dom().contains(o) <==> u@.contains(o) by {
                lemma_push_contains(u0, nb, o);
            }
        }
        i = i + 1;
    }
}

/// Widen the union by the neighbours of a frontier.
fn expand_frontier(table: &mut IdTable, u: &mut Vec<u32>, frontier: &Vec<u32>, graph: &GraphAdj, ke: usize, n: Ghost<nat>)
    requires
        table_has(*old(table), old(u)@),
        graph.wf(n@),
        ke <= graph.k,
        old(u)@.len() + frontier@.len() * ke < old(table).capacity(),
        forall|i: int| 0 <= i < old(u)@.len() ==> #[trigger] old(u)@[i] < n@,
        forall|i: int| 0 <= i < frontier@.len() ==> #[trigger] frontier@[i] < n@,
    ensures
        table_has(*final(table), final(u)@),
        final(table).capacity() == old(table).capacity(),
        final(u)@ == expand(old(u)@, frontier@, graph.adj@, graph.k as nat, ke as nat, frontier@.len()),
{
    let mut i: usize = 0;
    while i < frontier.len()
        invariant
            i <= frontier@.len(),
            table_has(*table, u@),
            graph.wf(n@),
            ke <= graph.k,
            table.capacity() == old(table).capacity(),
            old(u)@.len() + frontier@.len() * ke < old(table).capacity(),
            forall|j: int| 0 <= j < old(u)@.len() ==> #[trigger] old(u)@[j] < n@,
            forall|j: int| 0 <= j < frontier@.len() ==> #[trigger] frontier@[j] < n@,
            u@ == expand(old(u)@, frontier@, graph.adj@, graph.k as nat, ke as nat, i as nat),
        decreases frontier@.len() - i,
    {
        proof {
            lemma_expand(old(u)@, frontier@, graph.adj@, graph.k as nat, ke as nat, i as nat, n@);
            assert(frontier@[i as int] < n@);
            lemma_nbrs(graph.adj@, graph.k as nat, frontier@[i as int] as int, n@);
            let a = i as int;
            let b = frontier@.len() as int;
            let e = ke as int;
            assert(a * e + e <= b * e) by (nonlinear_arith)
                requires
                    a + 1 <= b,
                    e >= 0,
            ;
        }
        let nbs = graph.neighbours(frontier[i] as usize);
        add_neighbours(table, u, nbs, ke, n);
        i = i + 1;
    }
}

/// Score the union members that have no score yet.
fn score_tail(scored: &mut Vec<(i32, u32)>, u: &Vec<u32>, src: &UnionRows, q: &[i8], slots: &Vec<u32>, n: Ghost<nat>)
    requires
        q@.len() == src.d,
        union_rows_stored(*src, slots@, n@),
        forall|i: int| 0 <= i < u@.len() ==> #[trigger] u@[i] < n@,
        old(scored)@.len() <= u@.len(),
        old(scored)@ == scored_union(*src, q@, slots@, u@).take(old(scored)@.len() as int),
    ensures
        final(scored)@ == scored_union(*src, q@, slots@, u@),
{
    let ghost all = scored_union(*src, q@, slots@, u@);
    let rawlen: usize = src.raw.len();
    let rowlen: usize = src.rows.len();
    let d: usize = src.d;
    while scored.len() < u.len()
        invariant
            d == src.d,
            rawlen == src.raw@.len(),
            rowlen == src.rows@.len(),
            q@.len() == d,
            union_rows_stored(*src, slots@, n@),
            forall|i: int| 0 <= i < u@.len() ==> #[trigger] u@[i] < n@,
            all == scored_union(*src, q@, slots@, u@),
            scored@.len() <= u@.len(),
            scored@ == all.take(scored@.len() as int),
        decreases u@.len() - scored@.len(),
    {
        let i: usize = scored.len();
        let o: u32 = u[i];
        proof {
            let r = o as int;
            let dd = d as int;
            let nn = n@ as int;
            assert(u@[i as int] < n@);
            assert(0 <= r * dd && r * dd + dd <= nn * dd) by (nonlinear_arith)
                requires
                    0 <= r < nn,
                    dd >= 0,
            ;
        }
        let row: &[i8] = if rawlen > 0 && src.raw_by_orig {
            slice_subrange(src.raw, o as usize * d, o as usize * d + d)
        } else if rawlen > 0 && i < slots.len() {
            let s: u32 = slots[i];
            proof {
                assert((slots@[i as int] + 1) * src.d <= src.raw@.len());
                let r = s as int;
                let dd = d as int;
                assert((r + 1) * dd == r * dd + dd && 0 <= r * dd) by (nonlinear_arith)
                    requires
                        r >= 0,
                        dd >= 0,
                ;
            }
            slice_subrange(src.raw, s as usize * d, s as usize * d + d)
        } else {
            slice_subrange(src.rows, o as usize * d, o as usize * d + d)
        };
        assert(row@ =~= union_row(*src, slots@, u@, i as int));
        let dist: i32 = negdot_i8(q, row);
        scored.push((dist, o));
        assert(scored@ =~= all.take(i + 1));
    }
    assert(all.take(all.len() as int) =~= all);
}

/// Every id is a base row.
pub open spec fn ids_below(u: Seq<u32>, n: nat) -> bool {
    forall|i: int| 0 <= i < u.len() ==> #[trigger] u[i] < n
}

proof fn lemma_unexpanded(s: Seq<(i32, u32)>, exp: Seq<bool>, n: nat)
    requires
        n <= u32::MAX,
    ensures
        forall|i: int| 0 <= i < unexpanded(s, exp, n).len() ==> (#[trigger] unexpanded(s, exp, n)[i]).1 < n,
    decreases n,
{
    if n > 0 {
        lemma_unexpanded(s, exp, (n - 1) as nat);
        let p = unexpanded(s, exp, (n - 1) as nat);
        let r = unexpanded(s, exp, n);
        assert forall|i: int| 0 <= i < r.len() implies (#[trigger] r[i]).1 < n by {
            if i < p.len() {
                assert(r[i] == p[i]);
            }
        }
    }
}

/// Scores of the leading members do not depend on what is appended.
proof fn lemma_scored_prefix(src: UnionRows, q: Seq<i8>, slots: Seq<u32>, u: Seq<u32>, v: Seq<u32>)
    requires
        u.len() <= v.len(),
        forall|i: int| 0 <= i < u.len() ==> #[trigger] v[i] == u[i],
    ensures
        scored_union(src, q, slots, u) == scored_union(src, q, slots, v).take(u.len() as int),
{
    let a = scored_union(src, q, slots, u);
    let b = scored_union(src, q, slots, v).take(u.len() as int);
    assert forall|i: int| 0 <= i < u.len() implies #[trigger] a[i] == b[i] by {
        assert(v[i] == u[i]);
    }
    assert(a =~= b);
}

proof fn lemma_budget(h: int, hops: int, per: int, f: int, m: int, ke: int, cap: int, p: int, len: int)
    requires
        0 <= h < hops,
        per == m * ke,
        0 <= f <= m,
        0 <= ke,
        p + hops * per < cap,
        len <= p + h * per,
    ensures
        len + f * ke < cap,
        len + f * ke <= p + (h + 1) * per,
{
    assert(f * ke <= m * ke) by (nonlinear_arith)
        requires
            0 <= f <= m,
            0 <= ke,
    ;
    assert((h + 1) * per <= hops * per && (h + 1) * per == h * per + per) by (nonlinear_arith)
        requires
            0 <= h < hops,
            0 <= per,
    ;
}

/// Best-first widening: `hops` rounds that each expand the `m` best unexpanded members.
fn beam_union(
    table: &mut IdTable,
    u: &mut Vec<u32>,
    scored: &mut Vec<(i32, u32)>,
    slots: &Vec<u32>,
    src: &UnionRows,
    q: &[i8],
    graph: &GraphAdj,
    ke: usize,
    m: usize,
    hops: usize,
    n: Ghost<nat>,
)
    requires
        q@.len() == src.d,
        union_rows_stored(*src, slots@, n@),
        graph.wf(n@),
        ke <= graph.k,
        ids_below(old(u)@, n@),
        table_has(*old(table), old(u)@),
        old(scored)@.len() == 0,
        old(u)@.no_duplicates(),
        old(u)@.len() + hops * (m * ke) < old(table).capacity(),
    ensures
        final(u)@ == beam(*src, q@, slots@, graph.adj@, graph.k as nat, ke as nat, m as nat, (Beam { u: old(u)@, exp: Seq::empty() }), hops as nat).u,
        ids_below(final(u)@, n@),
        final(scored)@.len() <= final(u)@.len(),
        final(scored)@ == scored_union(*src, q@, slots@, final(u)@).take(final(scored)@.len() as int),
{
    let ghost b0 = Beam { u: old(u)@, exp: Seq::empty() };
    let ghost p = old(u)@.len() as int;
    let ghost per = m * ke;
    let ghost cap = table.capacity() as int;
    let ghost adj = graph.adj@;
    let ghost k = graph.k as nat;
    let mut exp: Vec<bool> = Vec::new();
    let mut hop: usize = 0;
    assert(exp@ =~= Seq::<bool>::empty());
    assert(scored@ =~= scored_union(*src, q@, slots@, u@).take(0));
    while hop < hops
        invariant
            hop <= hops,
            q@.len() == src.d,
            union_rows_stored(*src, slots@, n@),
            graph.wf(n@),
            ke <= graph.k,
            ids_below(u@, n@),
            table_has(*table, u@),
            table.capacity() == cap,
            per == m * ke,
            p + hops * per < cap,
            u@.len() <= p + hop * per,
            b0.u.no_duplicates(),
            ids_below(b0.u, n@),
            adj == graph.adj@,
            k == graph.k,
            u@ == beam(*src, q@, slots@, adj, k, ke as nat, m as nat, b0, hop as nat).u,
            exp@ == beam(*src, q@, slots@, adj, k, ke as nat, m as nat, b0, hop as nat).exp,
            exp@.len() <= u@.len(),
            scored@.len() <= u@.len(),
            scored@ == scored_union(*src, q@, slots@, u@).take(scored@.len() as int),
        decreases hops - hop,
    {
        let ghost b = beam(*src, q@, slots@, adj, k, ke as nat, m as nat, b0, hop as nat);
        let ghost u0 = u@;
        score_tail(scored, u, src, q, slots, n);
        let ghost s = scored_union(*src, q@, slots@, u0);
        let len: usize = u.len();
        proof {
            lemma_budget(hop as int, hops as int, per, 0, m as int, ke as int, cap, p, len as int);
            lemma_beam_widens(*src, q@, slots@, adj, k, ke as nat, m as nat, b0, hop as nat, n@);
            lemma_distinct_below(u0, n@);
        }
        let ghost widened = mark(b.exp, u0.len(), Seq::empty());
        while exp.len() < len
            invariant
                exp@.len() <= len,
                b.exp.len() <= exp@.len(),
                forall|i: int| 0 <= i < exp@.len() ==> #[trigger] exp@[i] == (i < b.exp.len() && b.exp[i]),
            decreases len - exp@.len(),
        {
            exp.push(false);
        }
        assert(exp@ =~= widened);
        let mut cand: Vec<(i32, u32)> = Vec::new();
        let mut i: usize = 0;
        assert(cand@ =~= unexpanded(s, widened, 0));
        while i < len
            invariant
                i <= len,
                len <= u32::MAX,
                s == scored@,
                s.len() == len,
                exp@ == widened,
                widened.len() == len,
                cand@ == unexpanded(s, widened, i as nat),
            decreases len - i,
        {
            if !exp[i] {
                cand.push((scored[i].0, i as u32));
            }
            i = i + 1;
        }
        keep_smallest(&mut cand, m);
        let ghost front = smallest(unexpanded(s, widened, len as nat), m as nat);
        proof {
            lemma_unexpanded(s, widened, len as nat);
            lemma_smallest(unexpanded(s, widened, len as nat), m as nat);
            assert forall|j: int| 0 <= j < front.len() implies (#[trigger] front[j]).1 < len by {
                let un = unexpanded(s, widened, len as nat);
                assert(un.contains(front[j]));
                let x = choose|x: int| 0 <= x < un.len() && un[x] == front[j];
                assert(un[x].1 < len);
            }
        }
        let mut frontier: Vec<u32> = Vec::with_capacity(cand.len());
        let mut j: usize = 0;
        while j < cand.len()
            invariant
                j <= cand@.len(),
                cand@ == front,
                u@ == u0,
                u0.len() == len,
                exp@.len() == len,
                forall|x: int| 0 <= x < front.len() ==> (#[trigger] front[x]).1 < len,
                frontier@.len() == j,
                forall|x: int| 0 <= x < j ==> #[trigger] frontier@[x] == u0[front[x].1 as int],
                widened.len() == len,
                forall|x: int| 0 <= x < len ==> #[trigger] exp@[x] == (widened[x] || exists|y: int| 0 <= y < j && (#[trigger] front[y]).1 == x),
            decreases cand@.len() - j,
        {
            let at: usize = cand[j].1 as usize;
            assert(front[j as int].1 < len);
            frontier.push(u[at]);
            let ghost e0 = exp@;
            exp.set(at, true);
            assert forall|x: int| 0 <= x < len implies #[trigger] exp@[x] == (widened[x] || exists|y: int| 0 <= y < j + 1 && (#[trigger] front[y]).1 == x) by {
                if x == at {
                    assert(front[j as int].1 == x);
                } else {
                    assert(exp@[x] == e0[x]);
                }
            }
            j = j + 1;
        }
        proof {
            assert(frontier@ =~= points_at(front, u0));
            assert(exp@ =~= mark(widened, u0.len(), front)) by {
                assert forall|x: int| 0 <= x < len implies #[trigger] exp@[x] == mark(widened, u0.len(), front)[x] by {
                }
            }
            lemma_budget(hop as int, hops as int, per, front.len() as int, m as int, ke as int, cap, p, len as int);
            assert forall|x: int| 0 <= x < frontier@.len() implies #[trigger] frontier@[x] < n@ by {
                assert(u0[front[x].1 as int] < n@);
            }
        }
        expand_frontier(table, u, &frontier, graph, ke, n);
        proof {
            lemma_expand(u0, frontier@, adj, k, ke as nat, frontier@.len(), n@);
            lemma_scored_prefix(*src, q@, slots@, u0, u@);
        }
        hop = hop + 1;
    }
}

/// Layered widening: `n_layers` times, the `m` best of the last layer are expanded. The layer that
/// is expanded first starts at `lo`.
fn layered_union(
    table: &mut IdTable,
    u: &mut Vec<u32>,
    scored: &mut Vec<(i32, u32)>,
    lo: usize,
    slots: &Vec<u32>,
    src: &UnionRows,
    q: &[i8],
    graph: &GraphAdj,
    ke: usize,
    m: usize,
    n_layers: usize,
    n: Ghost<nat>,
)
    requires
        q@.len() == src.d,
        union_rows_stored(*src, slots@, n@),
        graph.wf(n@),
        ke <= graph.k,
        ids_below(old(u)@, n@),
        table_has(*old(table), old(u)@),
        old(scored)@.len() == 0,
        lo <= old(u)@.len(),
        old(u)@.len() + n_layers * (m * ke) < old(table).capacity(),
    ensures
        final(u)@ == layers(*src, q@, slots@, graph.adj@, graph.k as nat, ke as nat, m as nat, (Layers { u: old(u)@, lo: lo as nat }), n_layers as nat).u,
        ids_below(final(u)@, n@),
        final(scored)@.len() <= final(u)@.len(),
        final(scored)@ == scored_union(*src, q@, slots@, final(u)@).take(final(scored)@.len() as int),
{
    let ghost b0 = Layers { u: old(u)@, lo: lo as nat };
    let ghost p = old(u)@.len() as int;
    let ghost per = m * ke;
    let ghost cap = table.capacity() as int;
    let ghost adj = graph.adj@;
    let ghost k = graph.k as nat;
    let mut start: usize = lo;
    let mut r: usize = 0;
    assert(scored@ =~= scored_union(*src, q@, slots@, u@).take(0));
    while r < n_layers
        invariant
            r <= n_layers,
            q@.len() == src.d,
            union_rows_stored(*src, slots@, n@),
            graph.wf(n@),
            ke <= graph.k,
            ids_below(u@, n@),
            table_has(*table, u@),
            table.capacity() == cap,
            per == m * ke,
            p + n_layers * per < cap,
            u@.len() <= p + r * per,
            adj == graph.adj@,
            k == graph.k,
            u@ == layers(*src, q@, slots@, adj, k, ke as nat, m as nat, b0, r as nat).u,
            start == layers(*src, q@, slots@, adj, k, ke as nat, m as nat, b0, r as nat).lo,
            start <= u@.len(),
            scored@.len() <= u@.len(),
            scored@ == scored_union(*src, q@, slots@, u@).take(scored@.len() as int),
        decreases n_layers - r,
    {
        let ghost u0 = u@;
        score_tail(scored, u, src, q, slots, n);
        let ghost s = scored_union(*src, q@, slots@, u0);
        let len: usize = u.len();
        let mut cohort: Vec<(i32, u32)> = Vec::new();
        let mut i: usize = start;
        assert(cohort@ =~= s.subrange(start as int, start as int));
        while i < len
            invariant
                start <= i <= len,
                s == scored@,
                s.len() == len,
                cohort@ == s.subrange(start as int, i as int),
            decreases len - i,
        {
            cohort.push((scored[i].0, scored[i].1));
            i = i + 1;
            assert(cohort@ =~= s.subrange(start as int, i as int));
        }
        keep_smallest(&mut cohort, m);
        let ghost coh = s.subrange(start as int, len as int);
        let ghost front = smallest(coh, m as nat);
        proof {
            lemma_smallest(coh, m as nat);
            assert forall|j: int| 0 <= j < front.len() implies (#[trigger] front[j]).1 < n@ by {
                assert(coh.contains(front[j]));
                let x = choose|x: int| 0 <= x < coh.len() && coh[x] == front[j];
                assert(s[start + x] == front[j]);
                assert(u0[start + x] < n@);
            }
        }
        let mut frontier: Vec<u32> = Vec::with_capacity(cohort.len());
        let mut j: usize = 0;
        while j < cohort.len()
            invariant
                j <= cohort@.len(),
                cohort@ == front,
                frontier@.len() == j,
                forall|x: int| 0 <= x < j ==> #[trigger] frontier@[x] == front[x].1,
            decreases cohort@.len() - j,
        {
            frontier.push(cohort[j].1);
            j = j + 1;
        }
        proof {
            assert(frontier@ =~= points_of(front));
            lemma_budget(r as int, n_layers as int, per, front.len() as int, m as int, ke as int, cap, p, len as int);
        }
        expand_frontier(table, u, &frontier, graph, ke, n);
        proof {
            lemma_expand(u0, frontier@, adj, k, ke as nat, frontier@.len(), n@);
            lemma_scored_prefix(*src, q@, slots@, u0, u@);
        }
        start = len;
        r = r + 1;
    }
}

/// How the graph is used: neighbours per expansion, expansions per hop, hops, and whether the
/// frontier is chosen among all unexpanded members or layer by layer.
#[derive(Clone, Copy, Debug, PartialEq, Eq, Structural)]
pub struct GraphPolicy {
    pub kedge: usize,
    pub m: usize,
    pub hops: usize,
    pub bestfirst: bool,
}

/// Neighbours looked at per expansion: at least one, at most the degree of the graph.
pub open spec fn edges_used(kedge: nat, k: nat) -> nat {
    if kedge < 1 {
        1
    } else if kedge > k {
        k
    } else {
        kedge
    }
}

/// At least one hop.
pub open spec fn hops_used(hops: nat) -> nat {
    if hops < 1 {
        1
    } else {
        hops
    }
}

/// The survivors of the graph cascade: the scored union, cut to the `kk` best (`kk == 0` keeps all).
pub open spec fn graph_survivors(
    src: UnionRows,
    q: Seq<i8>,
    pool: Seq<(i32, u32)>,
    slot_orig: Seq<u32>,
    graph: GraphAdj,
    policy: GraphPolicy,
    kk: nat,
) -> Seq<(i32, u32)> {
    let pass = pool_pass(pool, slot_orig, pool.len());
    let u = graph_union(src, q, pass, slot_orig, graph.adj@, graph.k as nat, edges_used(policy.kedge as nat, graph.k as nat), policy.m as nat, hops_used(policy.hops as nat), policy.bestfirst);
    let s = scored_union(src, q, pass.slots, u);
    if kk == 0 {
        ascending(s)
    } else {
        smallest(s, kk)
    }
}

/// What the graph cascade needs of its inputs: `n` base rows, a graph over them, pool slots that
/// exist and whose points and rows are stored, and sizes that fit.
pub open spec fn graph_inputs_ok(
    src: UnionRows,
    pool: Seq<(i32, u32)>,
    slot_orig: Seq<u32>,
    graph: GraphAdj,
    policy: GraphPolicy,
    n: nat,
) -> bool {
    &&& graph.wf(n)
    &&& slots_exist(pool, slot_orig)
    &&& forall|i: int| 0 <= i < slot_orig.len() ==> #[trigger] slot_orig[i] == NO_POINT || slot_orig[i] < n
    &&& n * src.d <= src.rows@.len()
    &&& src.raw@.len() > 0 && src.raw_by_orig ==> n * src.d <= src.raw@.len()
    &&& src.raw@.len() > 0 && !src.raw_by_orig ==> slot_orig.len() * src.d <= src.raw@.len()
    &&& src.d <= DOT_DIM
    &&& pool.len() + hops_used(policy.hops as nat) * (policy.m * edges_used(policy.kedge as nat, graph.k as nat)) <= usize::MAX / 2
}

/// Graph-expanded int8 cascade. The pool is deduplicated by point and widened through the graph,
/// the union is rescored exactly by inner product, and the `kk` best survivors are returned as
/// `(score, point)`, best first.
pub fn rerank_cascade_graph(
    src: &UnionRows,
    n: usize,
    slot_orig: &[u32],
    q: &[i8],
    pool: &Vec<(i32, u32)>,
    graph: &GraphAdj,
    policy: GraphPolicy,
    kk: usize,
) -> (r: Vec<(i32, u32)>)
    requires
        q@.len() == src.d,
        graph_inputs_ok(*src, pool@, slot_orig@, *graph, policy, n as nat),
    ensures
        r@ == graph_survivors(*src, q@, pool@, slot_orig@, *graph, policy, kk as nat),
{
    let ke: usize = if policy.kedge < 1 {
        1
    } else if policy.kedge > graph.k {
        graph.k
    } else {
        policy.kedge
    };
    let hops: usize = if policy.hops < 1 { 1 } else { policy.hops };
    let m: usize = policy.m;
    let ghost nn = n as nat;
    proof {
        let a = m as int;
        let e = ke as int;
        let h = hops as int;
        assert(0 <= a * e && a * e <= h * (a * e)) by (nonlinear_arith)
            requires
                0 <= a,
                1 <= e,
                1 <= h,
        ;
        assert((h * a) * e == h * (a * e)) by (nonlinear_arith);
        assert(h * a <= (h * a) * e) by (nonlinear_arith)
            requires
                0 <= a,
                1 <= e,
                1 <= h,
        ;
    }
    let est: usize = pool.len() + hops * m * ke;
    let cap: usize = if est < 32 {
        64
    } else {
        est * 2
    };
    let mut c = collect_pool(pool, slot_orig, cap);
    let ghost pass = pool_pass(pool@, slot_orig@, pool@.len());
    proof {
        lemma_pool_pass(pool@, slot_orig@, pool@.len());
        assert forall|i: int| 0 <= i < pass.origs.len() implies #[trigger] pass.origs[i] < nn by {
            assert(slot_orig@[pass.slots[i] as int] == pass.origs[i]);
        }
        assert(union_rows_stored(*src, pass.slots, nn)) by {
            if src.raw@.len() > 0 && !src.raw_by_orig {
                assert forall|i: int| 0 <= i < pass.slots.len() implies (#[trigger] pass.slots[i] + 1) * src.d <= src.raw@.len() by {
                    let s1 = pass.slots[i] + 1;
                    let l = slot_orig@.len() as int;
                    let dd = src.d as int;
                    assert(s1 * dd <= l * dd) by (nonlinear_arith)
                        requires
                            s1 <= l,
                            dd >= 0,
                    ;
                }
            }
        }
    }
    let slots = c.slots;
    let mut u = c.origs;
    let mut table = c.table;
    let mut scored: Vec<(i32, u32)> = Vec::new();
    if policy.bestfirst {
        beam_union(&mut table, &mut u, &mut scored, &slots, src, q, graph, ke, m, hops, Ghost(nn));
        score_tail(&mut scored, &u, src, q, &slots, Ghost(nn));
    } else {
        let distinct: usize = u.len();
        let mut front = c.best;
        keep_smallest(&mut front, m);
        proof {
            lemma_smallest(pass.best, m as nat);
        }
        let mut seeds: Vec<u32> = Vec::with_capacity(front.len());
        let mut j: usize = 0;
        assert forall|x: int| 0 <= x < front@.len() implies (#[trigger] front@[x]).1 < slot_orig@.len() && slot_orig@[front@[x].1 as int] < nn by {
            assert(pass.best.contains(front@[x]));
            let y = choose|y: int| 0 <= y < pass.best.len() && pass.best[y] == front@[x];
            assert(slot_orig@[pass.best[y].1 as int] == pass.origs[y]);
        }
        while j < front.len()
            invariant
                j <= front@.len(),
                forall|x: int| 0 <= x < front@.len() ==> (#[trigger] front@[x]).1 < slot_orig@.len() && slot_orig@[front@[x].1 as int] < nn,
                seeds@.len() == j,
                forall|x: int| 0 <= x < j ==> #[trigger] seeds@[x] == slot_orig@[front@[x].1 as int],
            decreases front@.len() - j,
        {
            assert(front@[j as int].1 < slot_orig@.len());
            seeds.push(slot_orig[front[j].1 as usize]);
            j = j + 1;
        }
        proof {
            let ff = smallest(pass.best, m as nat);
            assert(seeds@ =~= Seq::new(ff.len(), |j: int| slot_orig@[ff[j].1 as int]));
            lemma_budget(0, hops as int, m * ke, seeds@.len() as int, m as int, ke as int, cap as int, pool@.len() as int, u@.len() as int);
            assert forall|x: int| 0 <= x < seeds@.len() implies #[trigger] seeds@[x] < nn by {
                assert(slot_orig@[front@[x].1 as int] < nn);
            }
            lemma_expand(u@, seeds@, graph.adj@, graph.k as nat, ke as nat, seeds@.len(), nn);
            let h = hops as int;
            let pp = m * ke;
            assert((h - 1) * pp + pp == h * pp) by (nonlinear_arith);
        }
        expand_frontier(&mut table, &mut u, &seeds, graph, ke, Ghost(nn));
        layered_union(&mut table, &mut u, &mut scored, distinct, &slots, src, q, graph, ke, m, hops - 1, Ghost(nn));
        score_tail(&mut scored, &u, src, q, &slots, Ghost(nn));
    }
    if kk == 0 {
        sort_ascending(&mut scored);
    } else {
        keep_smallest(&mut scored, kk);
    }
    scored
}

/// `id` is among the first `ke` neighbours of a member of `u`.
pub open spec fn linked(u: Seq<u32>, adj: Seq<u32>, k: nat, ke: nat, id: u32) -> bool {
    exists|x: int, j: int| 0 <= x < u.len() && 0 <= j < ke && #[trigger] neighbours_of(adj, k, u[x] as int)[j] == id
}

/// `v` is `u` with further points behind it, all of them distinct and each linked to a point before
/// it.
pub open spec fn widens(u: Seq<u32>, v: Seq<u32>, adj: Seq<u32>, k: nat, ke: nat) -> bool {
    &&& u.len() <= v.len()
    &&& v.take(u.len() as int) == u
    &&& v.no_duplicates()
    &&& forall|i: int| u.len() <= i < v.len() ==> linked(v.take(i), adj, k, ke, #[trigger] v[i])
}

proof fn lemma_widens_chain(u: Seq<u32>, v: Seq<u32>, w: Seq<u32>, adj: Seq<u32>, k: nat, ke: nat)
    requires
        widens(u, v, adj, k, ke),
        widens(v, w, adj, k, ke),
    ensures
        widens(u, w, adj, k, ke),
{
    assert(w.take(u.len() as int) =~= w.take(v.len() as int).take(u.len() as int));
    assert forall|i: int| u.len() <= i < w.len() implies linked(w.take(i), adj, k, ke, #[trigger] w[i]) by {
        if i < v.len() {
            assert(w.take(v.len() as int)[i] == w[i]);
            assert(linked(v.take(i), adj, k, ke, v[i]));
            assert(w.take(i) =~= w.take(v.len() as int).take(i));
        }
    }
}

proof fn lemma_add_ids_widens(u: Seq<u32>, adj: Seq<u32>, k: nat, ke: nat, o: u32, n: nat)
    requires
        u.no_duplicates(),
        u.contains(o),
        n <= ke,
    ensures
        widens(u, add_ids(u, neighbours_of(adj, k, o as int), n), adj, k, ke),
    decreases n,
{
    let ids = neighbours_of(adj, k, o as int);
    if n == 0 {
        assert(u.take(u.len() as int) =~= u);
    } else {
        lemma_add_ids_widens(u, adj, k, ke, o, (n - 1) as nat);
        let v = add_ids(u, ids, (n - 1) as nat);
        let w = add_ids(u, ids, n);
        if !v.contains(ids[n - 1]) {
            assert(w.take(u.len() as int) =~= v.take(u.len() as int));
            assert forall|i: int| u.len() <= i < w.len() implies linked(w.take(i), adj, k, ke, #[trigger] w[i]) by {
                if i < v.len() {
                    assert(w[i] == v[i]);
                    assert(w.take(i) =~= v.take(i));
                } else {
                    let x = choose|x: int| 0 <= x < u.len() && u[x] == o;
                    assert(v.take(u.len() as int)[x] == v[x]);
                    assert(w.take(i) =~= v);
                    assert(neighbours_of(adj, k, v[x] as int)[n - 1] == w[i]);
                }
            }
        }
    }
}

proof fn lemma_expand_widens(u: Seq<u32>, frontier: Seq<u32>, adj: Seq<u32>, k: nat, ke: nat, n: nat)
    requires
        u.no_duplicates(),
        n <= frontier.len(),
        forall|j: int| 0 <= j < frontier.len() ==> u.contains(#[trigger] frontier[j]),
    ensures
        widens(u, expand(u, frontier, adj, k, ke, n), adj, k, ke),
    decreases n,
{
    if n == 0 {
        assert(u.take(u.len() as int) =~= u);
    } else {
        lemma_expand_widens(u, frontier, adj, k, ke, (n - 1) as nat);
        let v = expand(u, frontier, adj, k, ke, (n - 1) as nat);
        let o = frontier[n - 1];
        assert(v.contains(o)) by {
            let x = choose|x: int| 0 <= x < u.len() && u[x] == o;
            assert(v.take(u.len() as int)[x] == v[x]);
        }
        lemma_add_ids_widens(v, adj, k, ke, o, ke);
        lemma_widens_chain(u, v, expand(u, frontier, adj, k, ke, n), adj, k, ke);
    }
}

proof fn lemma_beam_widens(src: UnionRows, q: Seq<i8>, slots: Seq<u32>, adj: Seq<u32>, k: nat, ke: nat, m: nat, b: Beam, hops: nat, n: nat)
    requires
        b.u.no_duplicates(),
        ids_below(b.u, n),
        n <= NO_POINT,
        ke <= k,
        adj.len() == n * k,
        ids_below(adj, n),
    ensures
        widens(b.u, beam(src, q, slots, adj, k, ke, m, b, hops).u, adj, k, ke),
        ids_below(beam(src, q, slots, adj, k, ke, m, b, hops).u, n),
        hops > 0 ==> widens(
            beam(src, q, slots, adj, k, ke, m, b, (hops - 1) as nat).u,
            beam(src, q, slots, adj, k, ke, m, b, hops).u,
            adj,
            k,
            ke,
        ),
    decreases hops,
{
    if hops == 0 {
        assert(b.u.take(b.u.len() as int) =~= b.u);
    } else {
        let h = (hops - 1) as nat;
        lemma_beam_widens(src, q, slots, adj, k, ke, m, b, h, n);
        let c = beam(src, q, slots, adj, k, ke, m, b, h);
        lemma_distinct_below(c.u, n);
        let s = scored_union(src, q, slots, c.u);
        let widened = mark(c.exp, c.u.len(), Seq::empty());
        let un = unexpanded(s, widened, c.u.len());
        let front = smallest(un, m);
        lemma_unexpanded(s, widened, c.u.len());
        lemma_smallest(un, m);
        let pts = points_at(front, c.u);
        assert forall|j: int| 0 <= j < pts.len() implies c.u.contains(#[trigger] pts[j]) && pts[j] < n by {
            assert(un.contains(front[j]));
            let x = choose|x: int| 0 <= x < un.len() && un[x] == front[j];
            assert(un[x].1 < c.u.len());
            assert(c.u[un[x].1 as int] < n);
        }
        lemma_expand_widens(c.u, pts, adj, k, ke, front.len());
        lemma_expand(c.u, pts, adj, k, ke, front.len(), n);
        lemma_widens_chain(b.u, c.u, expand(c.u, pts, adj, k, ke, front.len()), adj, k, ke);
    }
}

proof fn lemma_layers_widen(src: UnionRows, q: Seq<i8>, slots: Seq<u32>, adj: Seq<u32>, k: nat, ke: nat, m: nat, b: Layers, n: nat)
    requires
        b.u.no_duplicates(),
        b.lo <= b.u.len(),
    ensures
        widens(b.u, layers(src, q, slots, adj, k, ke, m, b, n).u, adj, k, ke),
        layers(src, q, slots, adj, k, ke, m, b, n).lo <= layers(src, q, slots, adj, k, ke, m, b, n).u.len(),
        n > 0 ==> widens(
            layers(src, q, slots, adj, k, ke, m, b, (n - 1) as nat).u,
            layers(src, q, slots, adj, k, ke, m, b, n).u,
            adj,
            k,
            ke,
        ),
    decreases n,
{
    if n == 0 {
        assert(b.u.take(b.u.len() as int) =~= b.u);
    } else {
        lemma_layers_widen(src, q, slots, adj, k, ke, m, b, (n - 1) as nat);
        let c = layers(src, q, slots, adj, k, ke, m, b, (n - 1) as nat);
        let s = scored_union(src, q, slots, c.u);
        let last = s.subrange(c.lo as int, s.len() as int);
        let front = smallest(last, m);
        lemma_smallest(last, m);
        let pts = points_of(front);
        assert forall|j: int| 0 <= j < pts.len() implies c.u.contains(#[trigger] pts[j]) by {
            assert(last.contains(front[j]));
            let x = choose|x: int| 0 <= x < last.len() && last[x] == front[j];
            assert(s[c.lo + x].1 == c.u[c.lo + x]);
        }
        lemma_expand_widens(c.u, pts, adj, k, ke, front.len());
        lemma_widens_chain(b.u, c.u, expand(c.u, pts, adj, k, ke, front.len()), adj, k, ke);
    }
}

/// The graph only adds to a pool: the union starts with the points of the pool, holds no point
/// twice, and every point that it adds is a neighbour of one before it. A further hop only appends.
pub proof fn law_graph_widens_the_pool(src: UnionRows, q: Seq<i8>, pool: Seq<(i32, u32)>, slot_orig: Seq<u32>, graph: GraphAdj, n: nat, ke: nat, m: nat, hops: nat, bestfirst: bool)
    requires
        slots_exist(pool, slot_orig),
        graph.wf(n),
        forall|i: int| 0 <= i < slot_orig.len() ==> #[trigger] slot_orig[i] == NO_POINT || slot_orig[i] < n,
        ke <= graph.k,
        hops >= 1,
    ensures
        ({
            let (adj, k) = (graph.adj@, graph.k as nat);
            let pass = pool_pass(pool, slot_orig, pool.len());
            let u = graph_union(src, q, pass, slot_orig, adj, k, ke, m, hops, bestfirst);
            &&& widens(pass.origs, u, adj, k, ke)
            &&& widens(u, graph_union(src, q, pass, slot_orig, adj, k, ke, m, hops + 1, bestfirst), adj, k, ke)
        }),
{
    let (adj, k) = (graph.adj@, graph.k as nat);
    let pass = pool_pass(pool, slot_orig, pool.len());
    lemma_pool_pass(pool, slot_orig, pool.len());
    if bestfirst {
        let b = Beam { u: pass.origs, exp: Seq::empty() };
        assert forall|i: int| 0 <= i < pass.origs.len() implies #[trigger] pass.origs[i] < n by {
            assert(slot_orig[pass.slots[i] as int] == pass.origs[i]);
        }
        lemma_beam_widens(src, q, pass.slots, adj, k, ke, m, b, hops, n);
        lemma_beam_widens(src, q, pass.slots, adj, k, ke, m, b, hops + 1, n);
    } else {
        let front = smallest(pass.best, m);
        let seeds = Seq::new(front.len(), |j: int| slot_orig[front[j].1 as int]);
        lemma_smallest(pass.best, m);
        assert forall|j: int| 0 <= j < seeds.len() implies pass.origs.contains(#[trigger] seeds[j]) by {
            assert(pass.best.contains(front[j]));
            let x = choose|x: int| 0 <= x < pass.best.len() && pass.best[x] == front[j];
            assert(slot_orig[pass.best[x].1 as int] == pass.origs[x]);
        }
        lemma_expand_widens(pass.origs, seeds, adj, k, ke, front.len());
        let u = expand(pass.origs, seeds, adj, k, ke, front.len());
        let b = Layers { u, lo: pass.origs.len() };
        lemma_layers_widen(src, q, pass.slots, adj, k, ke, m, b, (hops - 1) as nat);
        lemma_layers_widen(src, q, pass.slots, adj, k, ke, m, b, hops);
        lemma_widens_chain(pass.origs, u, layers(src, q, pass.slots, adj, k, ke, m, b, (hops - 1) as nat).u, adj, k, ke);
    }
}

} // verus!
