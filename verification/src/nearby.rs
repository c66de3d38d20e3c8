//! What the neighbour graph is for: rows that run from near to far, and rounds that bring nearer points
//! in from the neighbours of neighbours.

use crate::descent::{
    across, candidates, crowded, distinct, edges_from, flat_ids, fresh_points, join_ok, law_round_improves_rows, lemma_improved, lemma_sim_fits, lemma_through_list,
    met, next_row, over_list, over_row, row_ok, through_list, through_row, KnnGraph, JOIN_LIMIT,
};
use crate::ibin::I8Bin;
use crate::knn::{
    aged, completed, drawn_row, edge_at, falling, ids_in, ids_ok, improved, law_similarity_orders_by_distance,
    law_similarity_orders_by_inner_product, lemma_reverse_rows, lemma_set_in, lemma_set_in_falls, place_of, reverse_row, reverse_rows,
    scored, seeded, sim, start_row, tag, untag, Backward, Edge, DRAWS, NEW_MARK, SPREAD,
};
use crate::simd::{dim_limit, dot, l2, lemma_row_in_range};
use vstd::prelude::*;

verus! {

/// Seen from `x`, `y` is at least as near as `z`: no farther, or of no smaller inner product.
pub open spec fn as_near(euclid: bool, x: Seq<i8>, y: Seq<i8>, z: Seq<i8>) -> bool {
    if euclid {
        l2(x, y) <= l2(x, z)
    } else {
        dot(x, y) >= dot(x, z)
    }
}

proof fn lemma_as_near(data: I8Bin<'_>, euclid: bool, v: int, y: int, z: int)
    requires
        data.wf(),
        0 <= v < data.nb,
        0 <= y < data.nb,
        0 <= z < data.nb,
    ensures
        as_near(euclid, data.spec_row(v), data.spec_row(y), data.spec_row(z)) <==> sim(euclid, data.spec_row(v), data.spec_row(y)) >= sim(euclid, data.spec_row(v), data.spec_row(z)),
{
    lemma_row_in_range(v, data.d as int, data.nb as int, data.data@.len() as int);
    lemma_row_in_range(y, data.d as int, data.nb as int, data.data@.len() as int);
    lemma_row_in_range(z, data.d as int, data.nb as int, data.data@.len() as int);
    if euclid {
        law_similarity_orders_by_distance(data.spec_row(v), data.spec_row(z), data.spec_row(y));
    } else {
        law_similarity_orders_by_inner_product(data.spec_row(v), data.spec_row(z), data.spec_row(y));
    }
}

proof fn lemma_flat(rows: Seq<Seq<Edge>>, n: nat, k: nat)
    requires
        n <= rows.len(),
        forall|v: int| 0 <= v < rows.len() ==> (#[trigger] rows[v]).len() == k,
    ensures
        flat_ids(rows, n).len() == n * k,
        forall|v: int, j: int| 0 <= v < n && 0 <= j < k ==> flat_ids(rows, n)[v * k + j] == (#[trigger] rows[v][j]).id,
    decreases n,
{
    if n > 0 {
        let m = (n - 1) as nat;
        lemma_flat(rows, m, k);
        let a = flat_ids(rows, m);
        let b = ids_in(rows[m as int]);
        assert(m * k + k == n * k) by (nonlinear_arith)
            requires
                n == m + 1,
        ;
        assert forall|v: int, j: int| 0 <= v < n && 0 <= j < k implies flat_ids(rows, n)[v * k + j] == (#[trigger] rows[v][j]).id by {
            if v < m {
                assert(0 <= v * k && v * k + j < m * k) by (nonlinear_arith)
                    requires
                        0 <= v < m,
                        0 <= j < k,
                ;
                assert((a + b)[v * k + j] == a[v * k + j]);
            } else {
                assert((a + b)[m * k + j] == b[j]);
            }
        }
    } else {
        assert(0 * k == 0) by (nonlinear_arith);
    }
}

/// The neighbours that a graph lists: for each point `k` distinct other points, from the nearest to the
/// farthest. Under the inner product these never rise along a row, else the distances never fall.
pub proof fn law_rows_run_from_near_to_far(g: KnnGraph, data: I8Bin<'_>, euclid: bool, v: int, i: int, j: int)
    requires
        data.wf(),
        data.nb <= u32::MAX,
        g.wf(data, euclid),
        0 <= v < data.nb,
        0 <= i < j < g.k,
    ensures
        ({
            let flat = flat_ids(g.model(), g.rows@.len());
            let (a, b) = (flat[v * g.k + i], flat[v * g.k + j]);
            &&& flat.len() == data.nb * g.k
            &&& a < data.nb && b < data.nb && a != b && a != v && b != v
            &&& !euclid ==> dot(data.spec_row(v), data.spec_row(a as int)) >= dot(data.spec_row(v), data.spec_row(b as int))
            &&& euclid ==> l2(data.spec_row(v), data.spec_row(a as int)) <= l2(data.spec_row(v), data.spec_row(b as int))
        }),
{
    let rows = g.model();
    let k = g.k as nat;
    assert forall|x: int| 0 <= x < rows.len() implies (#[trigger] rows[x]).len() == k by {
        assert(row_ok(data, euclid, k, x, g.rows@[x]@));
    }
    lemma_flat(rows, rows.len(), k);
    let row = g.rows@[v]@;
    assert(row_ok(data, euclid, k, v, row));
    assert(rows[v] == row);
    assert(rows[v][i].id == row[i].id && rows[v][j].id == row[j].id);
    let ids = ids_in(row);
    assert(ids[i] < data.nb && ids[j] < data.nb && ids[i] != v as u32 && ids[j] != v as u32 && ids[i] != ids[j]);
    assert(row[i].sim >= row[j].sim);
    lemma_as_near(data, euclid, v, row[i].id as int, row[j].id as int);
}

/// A round brings no place of a row a farther neighbour: under the inner product no place falls in it,
/// else none grows in distance.
pub proof fn law_round_brings_none_farther(g: KnnGraph, data: I8Bin<'_>, euclid: bool, lists: Seq<Seq<u32>>, cap: nat, age: u8, v: int, j: int)
    requires
        data.wf(),
        data.d <= dim_limit(euclid),
        data.nb <= u32::MAX,
        g.wf(data, euclid),
        join_ok(g.model(), lists, g.k as nat, cap),
        0 <= v < data.nb,
        0 <= j < g.k,
    ensures
        ({
            let was = g.rows@[v]@[j].id as int;
            let now = next_row(data, euclid, v, g.model(), lists, g.k as nat, cap, age)[j].id as int;
            &&& 0 <= now < data.nb && now != v
            &&& !euclid ==> dot(data.spec_row(v), data.spec_row(now)) >= dot(data.spec_row(v), data.spec_row(was))
            &&& euclid ==> l2(data.spec_row(v), data.spec_row(now)) <= l2(data.spec_row(v), data.spec_row(was))
        }),
{
    let rows = g.model();
    let k = g.k as nat;
    let row = g.rows@[v]@;
    assert(row_ok(data, euclid, k, v, row));
    assert(rows[v] == row);
    law_round_improves_rows(data, euclid, v, rows, lists, k, cap, age);
    let next = next_row(data, euclid, v, rows, lists, k, cap, age);
    assert(next[j].sim >= row[j].sim);
    assert(ids_in(next)[j] < data.nb && ids_in(next)[j] != v as u32);
    assert(ids_in(row)[j] < data.nb);
    lemma_as_near(data, euclid, v, next[j].id as int, row[j].id as int);
}

// ---------------------------------------------------------------- whom a round brings together

/// `v` and `u` are joined by an edge of either direction, new or old.
pub open spec fn bridge(rows: Seq<Seq<Edge>>, lists: Seq<Seq<u32>>, v: int, u: int, new: bool) -> bool {
    ||| exists|j: int| 0 <= j < rows[v].len() && (#[trigger] rows[v][j]).id == u && (rows[v][j].fresh > 0) == new
    ||| exists|t: int| 0 <= t < lists[v].len() && untag(#[trigger] lists[v][t]) == u && (lists[v][t] >= NEW_MARK) == new
}

/// The row of `v` is brought together with `w`: the two have a common neighbour over edges of which one
/// is new, or `w` has an edge to `v`.
pub open spec fn brought_together(rows: Seq<Seq<Edge>>, lists: Seq<Seq<u32>>, v: int, w: u32) -> bool {
    ||| exists|t: int| 0 <= t < lists[v].len() && untag(#[trigger] lists[v][t]) == w
    ||| exists|u: int, a: bool, b: bool| #[trigger] bridge(rows, lists, v, u, a) && #[trigger] bridge(rows, lists, u, w as int, b) && (a || b)
}

/// `w` is the point itself or in its row.
pub open spec fn own(v: u32, row: Seq<Edge>, w: u32) -> bool {
    w == v || ids_in(row).contains(w)
}

proof fn lemma_met_holds(v: u32, row: Seq<Edge>, cand: Seq<u32>, x: u32, w: u32)
    ensures
        met(v, row, cand, x).contains(w) <==> cand.contains(w) || (!own(v, row, w) && x == w),
        met(v, row, cand, x).len() <= cand.len() + 1,
{
    let r = met(v, row, cand, x);
    if cand.contains(w) {
        let i = choose|i: int| 0 <= i < cand.len() && cand[i] == w;
        assert(r[i] == w);
    }
    if r.contains(w) && !cand.contains(w) {
        let i = choose|i: int| 0 <= i < r.len() && r[i] == w;
        if i < cand.len() {
            assert(cand[i] == w);
        }
    }
    if !own(v, row, w) && x == w && !cand.contains(w) {
        assert(r[cand.len() as int] == w);
    }
}

proof fn lemma_over_row_holds(v: u32, row: Seq<Edge>, cand: Seq<u32>, other: Seq<Edge>, new: bool, t: nat, w: u32)
    requires
        t <= other.len(),
    ensures
        over_row(v, row, cand, other, new, t).contains(w) <==> cand.contains(w) || (!own(v, row, w) && exists|i: int| 0 <= i < t && (#[trigger] other[i]).id == w && (new || other[i].fresh > 0)),
        over_row(v, row, cand, other, new, t).len() <= cand.len() + t,
    decreases t,
{
    if t > 0 {
        lemma_over_row_holds(v, row, cand, other, new, (t - 1) as nat, w);
        let before = over_row(v, row, cand, other, new, (t - 1) as nat);
        lemma_met_holds(v, row, before, other[t - 1].id, w);
        if exists|i: int| 0 <= i < t && (#[trigger] other[i]).id == w && (new || other[i].fresh > 0) {
            let i = choose|i: int| 0 <= i < t && (#[trigger] other[i]).id == w && (new || other[i].fresh > 0);
            if i < t - 1 {
                assert(other[i].id == w);
            }
        }
    }
}

proof fn lemma_over_list_holds(v: u32, row: Seq<Edge>, cand: Seq<u32>, list: Seq<u32>, new: bool, t: nat, w: u32)
    requires
        t <= list.len(),
    ensures
        over_list(v, row, cand, list, new, t).contains(w) <==> cand.contains(w) || (!own(v, row, w) && exists|i: int| 0 <= i < t && untag(#[trigger] list[i]) == w && (new || list[i] >= NEW_MARK)),
        over_list(v, row, cand, list, new, t).len() <= cand.len() + t,
    decreases t,
{
    if t > 0 {
        lemma_over_list_holds(v, row, cand, list, new, (t - 1) as nat, w);
        let before = over_list(v, row, cand, list, new, (t - 1) as nat);
        lemma_met_holds(v, row, before, untag(list[t - 1]), w);
        if exists|i: int| 0 <= i < t && untag(#[trigger] list[i]) == w && (new || list[i] >= NEW_MARK) {
            let i = choose|i: int| 0 <= i < t && untag(#[trigger] list[i]) == w && (new || list[i] >= NEW_MARK);
            if i < t - 1 {
                assert(untag(list[i]) == w);
            }
        }
    }
}

/// `w` is reached from `u` over an edge of either direction that is new, or any where `new`.
spec fn beyond(rows: Seq<Seq<Edge>>, lists: Seq<Seq<u32>>, u: int, new: bool, w: u32) -> bool {
    bridge(rows, lists, u, w as int, true) || (new && bridge(rows, lists, u, w as int, false))
}

proof fn lemma_across_holds(v: u32, row: Seq<Edge>, cand: Seq<u32>, rows: Seq<Seq<Edge>>, lists: Seq<Seq<u32>>, u: int, new: bool, w: u32)
    ensures
        across(v, row, cand, rows, lists, u, new).contains(w) <==> cand.contains(w) || (!own(v, row, w) && beyond(rows, lists, u, new, w)),
        across(v, row, cand, rows, lists, u, new).len() <= cand.len() + rows[u].len() + lists[u].len(),
{
    let other = rows[u];
    let list = lists[u];
    lemma_over_row_holds(v, row, cand, other, new, other.len(), w);
    let a = over_row(v, row, cand, other, new, other.len());
    lemma_over_list_holds(v, row, a, list, new, list.len(), w);
    let fwd = exists|i: int| 0 <= i < other.len() && (#[trigger] other[i]).id == w && (new || other[i].fresh > 0);
    let back = exists|i: int| 0 <= i < list.len() && untag(#[trigger] list[i]) == w && (new || list[i] >= NEW_MARK);
    if fwd {
        let i = choose|i: int| 0 <= i < other.len() && (#[trigger] other[i]).id == w && (new || other[i].fresh > 0);
        assert(rows[u][i].id == w as int);
        assert(bridge(rows, lists, u, w as int, rows[u][i].fresh > 0));
    }
    if back {
        let i = choose|i: int| 0 <= i < list.len() && untag(#[trigger] list[i]) == w && (new || list[i] >= NEW_MARK);
        assert(untag(lists[u][i]) == w as int);
        assert(bridge(rows, lists, u, w as int, lists[u][i] >= NEW_MARK));
    }
    if beyond(rows, lists, u, new, w) {
        let b = bridge(rows, lists, u, w as int, true);
        if exists|j: int| 0 <= j < rows[u].len() && (#[trigger] rows[u][j]).id == w as int && (rows[u][j].fresh > 0) == b {
            let j = choose|j: int| 0 <= j < rows[u].len() && (#[trigger] rows[u][j]).id == w as int && (rows[u][j].fresh > 0) == b;
            assert(other[j].id == w);
            assert(fwd);
        } else {
            let t = choose|t: int| 0 <= t < lists[u].len() && untag(#[trigger] lists[u][t]) == w as int && (lists[u][t] >= NEW_MARK) == b;
            assert(untag(list[t]) == w);
            assert(back);
        }
    }
}

/// There is room for all that a row can be brought together with.
pub open spec fn roomy(k: nat, cap: nat) -> bool {
    (k + cap) * (k + cap + 1) + 2 * (k + cap) <= JOIN_LIMIT
}

proof fn lemma_through_row_holds(v: int, rows: Seq<Seq<Edge>>, lists: Seq<Seq<u32>>, k: nat, cap: nat, j: nat, w: u32)
    requires
        join_ok(rows, lists, k, cap),
        roomy(k, cap),
        0 <= v < rows.len(),
        rows.len() <= u32::MAX,
        j <= k,
    ensures
        through_row(v, rows, lists, k, cap, j).contains(w) <==> !own(v as u32, rows[v], w) && exists|i: int| 0 <= i < j && beyond(rows, lists, (#[trigger] rows[v][i]).id as int, rows[v][i].fresh > 0, w),
        through_row(v, rows, lists, k, cap, j).len() <= j * (k + cap),
    decreases j,
{
    if j == 0 {
        assert(0 * (k + cap) == 0) by (nonlinear_arith);
    } else {
        let m = (j - 1) as nat;
        lemma_through_row_holds(v, rows, lists, k, cap, m, w);
        let before = through_row(v, rows, lists, k, cap, m);
        assert(edge_at(rows, v, m as int));
        let e = rows[v][m as int];
        assert(rows[e.id as int].len() == k && lists[e.id as int].len() <= cap);
        assert(m * (k + cap) + (k + cap) == j * (k + cap) && j * (k + cap) <= (k + cap) * (k + cap + 1)) by (nonlinear_arith)
            requires
                j == m + 1,
                j <= k,
        ;
        assert(!crowded(before, k, cap));
        lemma_across_holds(v as u32, rows[v], before, rows, lists, e.id as int, e.fresh > 0, w);
        if exists|i: int| 0 <= i < j && beyond(rows, lists, (#[trigger] rows[v][i]).id as int, rows[v][i].fresh > 0, w) {
            let i = choose|i: int| 0 <= i < j && beyond(rows, lists, (#[trigger] rows[v][i]).id as int, rows[v][i].fresh > 0, w);
            if i < m {
                assert(beyond(rows, lists, rows[v][i].id as int, rows[v][i].fresh > 0, w));
            }
        }
    }
}

/// What the first `j` names of the reversed list of `v` bring.
spec fn through_names(rows: Seq<Seq<Edge>>, lists: Seq<Seq<u32>>, v: int, j: nat, w: u32) -> bool {
    exists|i: int| 0 <= i < j && (untag(#[trigger] lists[v][i]) == w || beyond(rows, lists, untag(lists[v][i]) as int, lists[v][i] >= NEW_MARK, w))
}

proof fn lemma_through_list_holds(v: int, rows: Seq<Seq<Edge>>, lists: Seq<Seq<u32>>, k: nat, cap: nat, j: nat, w: u32)
    requires
        join_ok(rows, lists, k, cap),
        roomy(k, cap),
        0 <= v < rows.len(),
        rows.len() <= u32::MAX,
        j <= lists[v].len(),
    ensures
        through_list(v, rows, lists, k, cap, j).contains(w) <==> !own(v as u32, rows[v], w) && (through_names(rows, lists, v, j, w) || exists|i: int| 0 <= i < k && beyond(rows, lists, (#[trigger] rows[v][i]).id as int, rows[v][i].fresh > 0, w)),
        through_list(v, rows, lists, k, cap, j).len() <= k * (k + cap) + j * (k + cap + 1),
    decreases j,
{
    assert(rows[v].len() == k);
    if j == 0 {
        lemma_through_row_holds(v, rows, lists, k, cap, k, w);
        assert(0 * (k + cap + 1) == 0) by (nonlinear_arith);
    } else {
        let m = (j - 1) as nat;
        lemma_through_list_holds(v, rows, lists, k, cap, m, w);
        let before = through_list(v, rows, lists, k, cap, m);
        let name = lists[v][m as int];
        let u = untag(name);
        assert(u < rows.len());
        assert(rows[u as int].len() == k && lists[u as int].len() <= cap);
        assert(m * (k + cap + 1) + (k + cap + 1) == j * (k + cap + 1) && k * (k + cap) + j * (k + cap + 1) <= (k + cap) * (k + cap + 1)) by (nonlinear_arith)
            requires
                j == m + 1,
                j <= cap,
        ;
        assert(!crowded(before, k, cap));
        lemma_met_holds(v as u32, rows[v], before, u, w);
        let mid = met(v as u32, rows[v], before, u);
        lemma_across_holds(v as u32, rows[v], mid, rows, lists, u as int, name >= NEW_MARK, w);
        if through_names(rows, lists, v, j, w) {
            let i = choose|i: int| 0 <= i < j && (untag(#[trigger] lists[v][i]) == w || beyond(rows, lists, untag(lists[v][i]) as int, lists[v][i] >= NEW_MARK, w));
            if i < m {
                assert(untag(lists[v][i]) == w || beyond(rows, lists, untag(lists[v][i]) as int, lists[v][i] >= NEW_MARK, w));
                assert(through_names(rows, lists, v, m, w));
            }
        }
        if through_names(rows, lists, v, m, w) {
            let i = choose|i: int| 0 <= i < m && (untag(#[trigger] lists[v][i]) == w || beyond(rows, lists, untag(lists[v][i]) as int, lists[v][i] >= NEW_MARK, w));
            assert(untag(lists[v][i]) == w || beyond(rows, lists, untag(lists[v][i]) as int, lists[v][i] >= NEW_MARK, w));
        }
    }
}

/// A row is joined with just those points that it is brought together with and does not hold.
pub proof fn law_round_joins_neighbours_of_neighbours(v: int, rows: Seq<Seq<Edge>>, lists: Seq<Seq<u32>>, k: nat, cap: nat, w: u32)
    requires
        join_ok(rows, lists, k, cap),
        roomy(k, cap),
        0 <= v < rows.len(),
        rows.len() <= u32::MAX,
    ensures
        candidates(v, rows, lists, k, cap).contains(w) <==> w != v && !ids_in(rows[v]).contains(w) && brought_together(rows, lists, v, w),
{
    lemma_through_list_holds(v, rows, lists, k, cap, lists[v].len(), w);
    assert(rows[v].len() == k);
    let names = through_names(rows, lists, v, lists[v].len(), w);
    let fwd = exists|i: int| 0 <= i < k && beyond(rows, lists, (#[trigger] rows[v][i]).id as int, rows[v][i].fresh > 0, w);
    if names {
        let i = choose|i: int| 0 <= i < lists[v].len() && (untag(#[trigger] lists[v][i]) == w || beyond(rows, lists, untag(lists[v][i]) as int, lists[v][i] >= NEW_MARK, w));
        if untag(lists[v][i]) != w {
            let u = untag(lists[v][i]) as int;
            let a = lists[v][i] >= NEW_MARK;
            assert(bridge(rows, lists, v, u, a));
            let b = bridge(rows, lists, u, w as int, true);
            assert(bridge(rows, lists, u, w as int, b));
        }
    }
    if fwd {
        let i = choose|i: int| 0 <= i < k && beyond(rows, lists, (#[trigger] rows[v][i]).id as int, rows[v][i].fresh > 0, w);
        let u = rows[v][i].id as int;
        let a = rows[v][i].fresh > 0;
        assert(bridge(rows, lists, v, u, a));
        let b = bridge(rows, lists, u, w as int, true);
        assert(bridge(rows, lists, u, w as int, b));
    }
    if brought_together(rows, lists, v, w) {
        if exists|t: int| 0 <= t < lists[v].len() && untag(#[trigger] lists[v][t]) == w {
            let t = choose|t: int| 0 <= t < lists[v].len() && untag(#[trigger] lists[v][t]) == w;
            assert(names);
        } else {
            let (u, a, b) = choose|u: int, a: bool, b: bool| #[trigger] bridge(rows, lists, v, u, a) && #[trigger] bridge(rows, lists, u, w as int, b) && (a || b);
            assert(beyond(rows, lists, u, a, w));
            if exists|j: int| 0 <= j < rows[v].len() && (#[trigger] rows[v][j]).id == u && (rows[v][j].fresh > 0) == a {
                let j = choose|j: int| 0 <= j < rows[v].len() && (#[trigger] rows[v][j]).id == u && (rows[v][j].fresh > 0) == a;
                assert(beyond(rows, lists, rows[v][j].id as int, rows[v][j].fresh > 0, w));
                assert(fwd);
            } else {
                let t = choose|t: int| 0 <= t < lists[v].len() && untag(#[trigger] lists[v][t]) == u && (lists[v][t] >= NEW_MARK) == a;
                assert(beyond(rows, lists, untag(lists[v][t]) as int, lists[v][t] >= NEW_MARK, w));
                assert(names);
            }
        }
    }
}

/// What is offered to a row stays in it, or is no nearer than its last.
proof fn lemma_improved_keeps(row: Seq<Edge>, edges: Seq<Edge>, e: Edge)
    requires
        row.len() > 0,
        falling(row),
        distinct(row),
        distinct(edges),
        forall|i: int, j: int| 0 <= i < row.len() && 0 <= j < edges.len() ==> (#[trigger] row[i]).id != (#[trigger] edges[j]).id,
        row.contains(e) || edges.contains(e),
    ensures
        improved(row, edges).len() == row.len(),
        improved(row, edges).contains(e) || e.sim <= improved(row, edges).last().sim,
    decreases edges.len(),
{
    lemma_improved(row, edges);
    if edges.len() > 0 {
        let head = edges.drop_last();
        let x = edges.last();
        assert forall|i: int, j: int| 0 <= i < head.len() && 0 <= j < head.len() && i != j implies (#[trigger] head[i]).id != (#[trigger] head[j]).id by {
            assert(edges[i].id != edges[j].id);
        }
        assert forall|i: int, j: int| 0 <= i < row.len() && 0 <= j < head.len() implies (#[trigger] row[i]).id != (#[trigger] head[j]).id by {
            assert(row[i].id != edges[j].id);
        }
        lemma_improved(row, head);
        let before = improved(row, head);
        let after = improved(row, edges);
        let last = before.last();
        let old = row.contains(e) || head.contains(e);
        if old {
            lemma_improved_keeps(row, head, e);
        } else {
            let i = choose|i: int| 0 <= i < edges.len() && edges[i] == e;
            if i < head.len() {
                assert(head[i] == e);
            }
            assert(e == x);
        }
        if x.sim > last.sim {
            let rest = before.drop_last();
            assert forall|i: int, j: int| 0 <= i <= j < rest.len() implies (#[trigger] rest[i]).sim >= (#[trigger] rest[j]).sim by {
                assert(before[i].sim >= before[j].sim);
            }
            lemma_set_in(rest, x);
            lemma_set_in_falls(rest, x);
            let p = place_of(rest, x) as int;
            assert(after[p] == x);
            assert(after.last().sim >= last.sim) by {
                let n = after.len() - 1;
                if p < n {
                    assert(after[n] == rest[n - 1]);
                    assert(before[n - 1].sim >= before[n].sim);
                }
            }
            if old && before.contains(e) {
                let i = choose|i: int| 0 <= i < before.len() && before[i] == e;
                if i < rest.len() {
                    if i < p {
                        assert(after[i] == rest[i]);
                    } else {
                        assert(after[i + 1] == rest[i]);
                    }
                }
            }
        }
    }
}

/// A round keeps the nearest of what a row held and was joined with: an old neighbour stays, one round
/// older, and a joined point enters, as new as `age` says, unless every place of the row is at least as
/// near.
pub proof fn law_round_keeps_the_nearest(g: KnnGraph, data: I8Bin<'_>, euclid: bool, lists: Seq<Seq<u32>>, cap: nat, age: u8, v: int, w: u32)
    requires
        data.wf(),
        data.d <= dim_limit(euclid),
        data.nb <= u32::MAX,
        g.wf(data, euclid),
        g.k >= 1,
        join_ok(g.model(), lists, g.k as nat, cap),
        0 <= v < data.nb,
        ids_in(g.rows@[v]@).contains(w) || candidates(v, g.model(), lists, g.k as nat, cap).contains(w),
    ensures
        ({
            let next = next_row(data, euclid, v, g.model(), lists, g.k as nat, cap, age);
            let x = data.spec_row(v);
            ||| forall|j: int| 0 <= j < next.len() ==> as_near(euclid, x, data.spec_row((#[trigger] next[j]).id as int), data.spec_row(w as int))
            ||| exists|j: int, i: int| 0 <= j < next.len() && 0 <= i < g.k && (#[trigger] next[j]).id == w && (#[trigger] g.rows@[v]@[i]).id == w && next[j].fresh == (if g.rows@[v]@[i].fresh > 0 { g.rows@[v]@[i].fresh - 1 } else { 0 })
            ||| !ids_in(g.rows@[v]@).contains(w) && exists|j: int| 0 <= j < next.len() && (#[trigger] next[j]).id == w && next[j].fresh == age
        }),
{
    let rows = g.model();
    let k = g.k as nat;
    let row = g.rows@[v]@;
    assert(row_ok(data, euclid, k, v, row));
    assert(rows[v] == row);
    law_round_improves_rows(data, euclid, v, rows, lists, k, cap, age);
    let next = next_row(data, euclid, v, rows, lists, k, cap, age);
    let cand = candidates(v, rows, lists, k, cap);
    lemma_through_list(v, rows, lists, k, cap, lists[v].len());
    let old_row = aged(row);
    let edges = scored(data, euclid, v, cand, age);
    let ids = ids_in(row);
    assert forall|i: int, j: int| 0 <= i <= j < old_row.len() implies (#[trigger] old_row[i]).sim >= (#[trigger] old_row[j]).sim by {
        assert(row[i].sim >= row[j].sim);
    }
    assert forall|i: int, j: int| 0 <= i < old_row.len() && 0 <= j < old_row.len() && i != j implies (#[trigger] old_row[i]).id != (#[trigger] old_row[j]).id by {
        assert(ids[i] != ids[j]);
    }
    assert forall|i: int, j: int| 0 <= i < edges.len() && 0 <= j < edges.len() && i != j implies (#[trigger] edges[i]).id != (#[trigger] edges[j]).id by {
        assert(cand[i] != cand[j]);
    }
    assert forall|i: int, j: int| 0 <= i < old_row.len() && 0 <= j < edges.len() implies (#[trigger] old_row[i]).id != (#[trigger] edges[j]).id by {
        assert(!ids.contains(cand[j]));
        assert(ids.contains(ids[i]));
    }
    let held = ids.contains(w);
    let at = if held {
        choose|i: int| 0 <= i < ids.len() && ids[i] == w
    } else {
        choose|i: int| 0 <= i < cand.len() && cand[i] == w
    };
    let e = if held {
        old_row[at]
    } else {
        edges[at]
    };
    assert(w < data.nb) by {
        if !held {
            assert(cand[at] < rows.len());
        }
    }
    assert(old_row.contains(e) || edges.contains(e));
    assert(e.sim == sim(euclid, data.spec_row(v), data.spec_row(w as int))) by {
        if held {
            assert(row[at].sim == sim(euclid, data.spec_row(v), data.spec_row(row[at].id as int)));
        } else {
            lemma_sim_fits(data, euclid, v, w as int);
        }
    }
    lemma_improved_keeps(old_row, edges, e);
    if next.contains(e) {
        let j = choose|j: int| 0 <= j < next.len() && next[j] == e;
        if held {
            assert(next[j].id == w && g.rows@[v]@[at].id == w);
        } else {
            assert(next[j].id == w);
        }
    } else {
        assert forall|j: int| 0 <= j < next.len() implies as_near(euclid, data.spec_row(v), data.spec_row((#[trigger] next[j]).id as int), data.spec_row(w as int)) by {
            assert(next[j].sim >= next[next.len() - 1].sim);
            assert(ids_in(next)[j] < data.nb);
            lemma_as_near(data, euclid, v, next[j].id as int, w as int);
        }
    }
}

/// The edges of a row after a round are its own, one round older, and scored candidates.
proof fn lemma_round_edges(g: KnnGraph, data: I8Bin<'_>, euclid: bool, lists: Seq<Seq<u32>>, cap: nat, age: u8, v: int)
    requires
        data.wf(),
        data.nb <= u32::MAX,
        g.wf(data, euclid),
        join_ok(g.model(), lists, g.k as nat, cap),
        0 <= v < data.nb,
    ensures
        g.model()[v] == g.rows@[v]@,
        row_ok(data, euclid, g.k as nat, v, g.rows@[v]@),
        fresh_points(v as u32, g.rows@[v]@, candidates(v, g.model(), lists, g.k as nat, cap), data.nb as nat),
        edges_from(next_row(data, euclid, v, g.model(), lists, g.k as nat, cap, age), aged(g.rows@[v]@), scored(data, euclid, v, candidates(v, g.model(), lists, g.k as nat, cap), age)),
{
    let rows = g.model();
    let k = g.k as nat;
    let row = g.rows@[v]@;
    assert(row_ok(data, euclid, k, v, row));
    assert(rows[v] == row);
    let cand = candidates(v, rows, lists, k, cap);
    lemma_through_list(v, rows, lists, k, cap, lists[v].len());
    let old_row = aged(row);
    let edges = scored(data, euclid, v, cand, age);
    let ids = ids_in(row);
    assert forall|i: int, j: int| 0 <= i <= j < old_row.len() implies (#[trigger] old_row[i]).sim >= (#[trigger] old_row[j]).sim by {
        assert(row[i].sim >= row[j].sim);
    }
    assert forall|i: int, j: int| 0 <= i < old_row.len() && 0 <= j < old_row.len() && i != j implies (#[trigger] old_row[i]).id != (#[trigger] old_row[j]).id by {
        assert(ids[i] != ids[j]);
    }
    assert forall|i: int, j: int| 0 <= i < edges.len() && 0 <= j < edges.len() && i != j implies (#[trigger] edges[i]).id != (#[trigger] edges[j]).id by {
        assert(cand[i] != cand[j]);
    }
    assert forall|i: int, j: int| 0 <= i < old_row.len() && 0 <= j < edges.len() implies (#[trigger] old_row[i]).id != (#[trigger] edges[j]).id by {
        assert(!ids.contains(cand[j]));
        assert(ids.contains(ids[i]));
    }
    lemma_improved(old_row, edges);
}

/// Nothing enters a row from elsewhere: what a row holds after a round it held before or was joined
/// with.
pub proof fn law_round_brings_only_what_it_joins(g: KnnGraph, data: I8Bin<'_>, euclid: bool, lists: Seq<Seq<u32>>, cap: nat, age: u8, v: int, j: int)
    requires
        data.wf(),
        data.nb <= u32::MAX,
        g.wf(data, euclid),
        join_ok(g.model(), lists, g.k as nat, cap),
        0 <= v < data.nb,
        0 <= j < next_row(data, euclid, v, g.model(), lists, g.k as nat, cap, age).len(),
    ensures
        ({
            let w = next_row(data, euclid, v, g.model(), lists, g.k as nat, cap, age)[j].id;
            ids_in(g.rows@[v]@).contains(w) || candidates(v, g.model(), lists, g.k as nat, cap).contains(w)
        }),
{
    let rows = g.model();
    let k = g.k as nat;
    let row = g.rows@[v]@;
    let next = next_row(data, euclid, v, rows, lists, k, cap, age);
    let cand = candidates(v, rows, lists, k, cap);
    let old_row = aged(row);
    let edges = scored(data, euclid, v, cand, age);
    let ids = ids_in(row);
    lemma_round_edges(g, data, euclid, lists, cap, age, v);
    if old_row.contains(next[j]) {
        let i = choose|i: int| 0 <= i < old_row.len() && old_row[i] == next[j];
        assert(ids[i] == next[j].id);
    } else {
        let i = choose|i: int| 0 <= i < edges.len() && edges[i] == next[j];
        assert(cand[i] == next[j].id);
    }
}

proof fn lemma_through_row_only(v: int, rows: Seq<Seq<Edge>>, lists: Seq<Seq<u32>>, k: nat, cap: nat, j: nat, w: u32)
    requires
        through_row(v, rows, lists, k, cap, j).contains(w),
        j <= rows[v].len(),
    ensures
        brought_together(rows, lists, v, w),
    decreases j,
{
    if j > 0 {
        let m = (j - 1) as nat;
        let before = through_row(v, rows, lists, k, cap, m);
        if before.contains(w) {
            lemma_through_row_only(v, rows, lists, k, cap, m, w);
        } else {
            let e = rows[v][m as int];
            lemma_across_holds(v as u32, rows[v], before, rows, lists, e.id as int, e.fresh > 0, w);
            assert(rows[v][m as int].id == e.id as int);
            assert(bridge(rows, lists, v, e.id as int, e.fresh > 0));
            let b = bridge(rows, lists, e.id as int, w as int, true);
            assert(bridge(rows, lists, e.id as int, w as int, b));
        }
    }
}

proof fn lemma_through_list_only(v: int, rows: Seq<Seq<Edge>>, lists: Seq<Seq<u32>>, k: nat, cap: nat, j: nat, w: u32)
    requires
        through_list(v, rows, lists, k, cap, j).contains(w),
        j <= lists[v].len(),
    ensures
        brought_together(rows, lists, v, w),
    decreases j,
{
    if j == 0 {
        lemma_through_row_only(v, rows, lists, k, cap, rows[v].len(), w);
    } else {
        let m = (j - 1) as nat;
        let before = through_list(v, rows, lists, k, cap, m);
        if before.contains(w) {
            lemma_through_list_only(v, rows, lists, k, cap, m, w);
        } else {
            let name = lists[v][m as int];
            let u = untag(name);
            let new = name >= NEW_MARK;
            lemma_met_holds(v as u32, rows[v], before, u, w);
            lemma_across_holds(v as u32, rows[v], met(v as u32, rows[v], before, u), rows, lists, u as int, new, w);
            assert(untag(lists[v][m as int]) == u as int);
            assert(bridge(rows, lists, v, u as int, new));
            if u != w {
                let b = bridge(rows, lists, u as int, w as int, true);
                assert(bridge(rows, lists, u as int, w as int, b));
            }
        }
    }
}

/// An edge of a row after a round is an edge of the row before it, one round older, or leads to a point
/// that the row was brought together with, and is then as new as the round makes it.
pub proof fn law_rounds_age_their_edges(g: KnnGraph, data: I8Bin<'_>, euclid: bool, lists: Seq<Seq<u32>>, cap: nat, age: u8, v: int, j: int)
    requires
        data.wf(),
        data.nb <= u32::MAX,
        g.wf(data, euclid),
        join_ok(g.model(), lists, g.k as nat, cap),
        0 <= v < data.nb,
        0 <= j < next_row(data, euclid, v, g.model(), lists, g.k as nat, cap, age).len(),
    ensures
        ({
            let e = next_row(data, euclid, v, g.model(), lists, g.k as nat, cap, age)[j];
            let row = g.rows@[v]@;
            ||| exists|i: int| 0 <= i < row.len() && (#[trigger] row[i]).id == e.id && row[i].sim == e.sim && e.fresh == (if row[i].fresh > 0 { row[i].fresh - 1 } else { 0 })
            ||| e.fresh == age && brought_together(g.model(), lists, v, e.id) && !ids_in(row).contains(e.id) && e.id != v
        }),
{
    let rows = g.model();
    let k = g.k as nat;
    let row = g.rows@[v]@;
    let next = next_row(data, euclid, v, rows, lists, k, cap, age);
    let cand = candidates(v, rows, lists, k, cap);
    let old_row = aged(row);
    let edges = scored(data, euclid, v, cand, age);
    let ids = ids_in(row);
    lemma_round_edges(g, data, euclid, lists, cap, age, v);
    if old_row.contains(next[j]) {
        let i = choose|i: int| 0 <= i < old_row.len() && old_row[i] == next[j];
        assert(row[i].id == next[j].id);
    } else {
        let i = choose|i: int| 0 <= i < edges.len() && edges[i] == next[j];
        assert(cand[i] == next[j].id);
        assert(cand.contains(cand[i]));
        lemma_through_list_only(v, rows, lists, k, cap, lists[v].len(), cand[i]);
    }
}

// ---------------------------------------------------------------- reversed edges and seeds

/// How many of the first `j` edges of a row lead to `u`.
pub open spec fn edges_to(row: Seq<Edge>, u: int, j: nat) -> nat
    decreases j,
{
    if j == 0 {
        0
    } else {
        edges_to(row, u, (j - 1) as nat) + if row[j - 1].id == u {
            1nat
        } else {
            0nat
        }
    }
}

/// How many edges of the first `n` rows lead to `u`.
pub open spec fn edges_into(rows: Seq<Seq<Edge>>, u: int, n: nat) -> nat
    decreases n,
{
    if n == 0 {
        0
    } else {
        edges_into(rows, u, (n - 1) as nat) + edges_to(rows[n - 1], u, rows[n - 1].len())
    }
}

proof fn lemma_reverse_row_keeps(b: Backward, v: int, row: Seq<Edge>, j: nat, cap: nat, salt: u64, u: int)
    requires
        j <= row.len(),
        b.lists.len() == b.counts.len(),
        0 <= u < b.lists.len(),
        forall|t: int| 0 <= t < row.len() ==> (#[trigger] row[t]).id < b.lists.len(),
    ensures
        ({
            let a = reverse_row(b, v, row, j, cap, salt);
            &&& a.lists.len() == b.lists.len()
            &&& a.counts.len() == b.counts.len()
            &&& a.counts[u] == b.counts[u] + edges_to(row, u, j)
            &&& a.counts[u] <= cap ==> a.lists[u].len() == b.lists[u].len() + edges_to(row, u, j)
            &&& a.counts[u] <= cap ==> forall|x: u32| b.lists[u].contains(x) ==> #[trigger] a.lists[u].contains(x)
            &&& a.counts[u] <= cap ==> forall|i: int| 0 <= i < j && (#[trigger] row[i]).id == u ==> a.lists[u].contains(tag(v, row[i]))
        }),
    decreases j,
{
    if j > 0 {
        let m = (j - 1) as nat;
        lemma_reverse_row_keeps(b, v, row, m, cap, salt, u);
        let c = reverse_row(b, v, row, m, cap, salt);
        let a = reverse_row(b, v, row, j, cap, salt);
        let e = row[m as int];
        if e.id == u && a.counts[u] <= cap {
            assert(a.lists[u] == c.lists[u].push(tag(v, e)));
            assert forall|x: u32| c.lists[u].contains(x) implies #[trigger] a.lists[u].contains(x) by {
                let i = choose|i: int| 0 <= i < c.lists[u].len() && c.lists[u][i] == x;
                assert(a.lists[u][i] == x);
            }
            assert(a.lists[u][c.lists[u].len() as int] == tag(v, e));
        }
    }
}

proof fn lemma_reverse_rows_keep(rows: Seq<Seq<Edge>>, n: nat, cap: nat, salt: u64, u: int)
    requires
        n <= rows.len(),
        ids_ok(rows),
        0 <= u < rows.len(),
    ensures
        ({
            let a = reverse_rows(rows, n, cap, salt);
            &&& a.lists.len() == rows.len()
            &&& a.counts.len() == rows.len()
            &&& a.counts[u] == edges_into(rows, u, n)
            &&& a.counts[u] <= cap ==> a.lists[u].len() == edges_into(rows, u, n)
            &&& a.counts[u] <= cap ==> forall|x: int, y: int| 0 <= x < n && #[trigger] edge_at(rows, x, y) && rows[x][y].id == u ==> a.lists[u].contains(tag(x, rows[x][y]))
        }),
    decreases n,
{
    if n > 0 {
        let m = (n - 1) as nat;
        lemma_reverse_rows_keep(rows, m, cap, salt, u);
        let b = reverse_rows(rows, m, cap, salt);
        let a = reverse_rows(rows, n, cap, salt);
        let row = rows[m as int];
        assert forall|t: int| 0 <= t < row.len() implies (#[trigger] row[t]).id < b.lists.len() by {
            assert(edge_at(rows, m as int, t));
        }
        lemma_reverse_row_keeps(b, m as int, row, row.len(), cap, salt, u);
        if a.counts[u] <= cap {
            assert forall|x: int, y: int| 0 <= x < n && #[trigger] edge_at(rows, x, y) && rows[x][y].id == u implies a.lists[u].contains(tag(x, rows[x][y])) by {
                if x < m {
                    assert(b.lists[u].contains(tag(x, rows[x][y])));
                } else {
                    assert(row[y].id == u);
                }
            }
        }
    }
}

/// A point that no more edges lead to than its list can name is listed every one of them, and new edges
/// as new.
pub proof fn law_short_reversed_lists_are_complete(rows: Seq<Seq<Edge>>, cap: nat, salt: u64, x: int, y: int)
    requires
        rows.len() < NEW_MARK,
        ids_ok(rows),
        edge_at(rows, x, y),
        edges_into(rows, rows[x][y].id as int, rows.len()) <= cap,
    ensures
        ({
            let u = rows[x][y].id as int;
            let list = reverse_rows(rows, rows.len(), cap, salt).lists[u];
            &&& list.len() == edges_into(rows, u, rows.len())
            &&& exists|t: int| 0 <= t < list.len() && untag(#[trigger] list[t]) == x && (list[t] >= NEW_MARK) == (rows[x][y].fresh > 0)
        }),
{
    let e = rows[x][y];
    let u = e.id as int;
    assert(e.id < rows.len());
    lemma_reverse_rows_keep(rows, rows.len(), cap, salt, u);
    let list = reverse_rows(rows, rows.len(), cap, salt).lists[u];
    assert(list.contains(tag(x, e)));
    let t = choose|t: int| 0 <= t < list.len() && list[t] == tag(x, e);
    assert(untag(list[t]) == x);
}

/// A long list is cut to `cap` names, no less.
pub proof fn law_reversed_lists_fill_up(rows: Seq<Seq<Edge>>, cap: nat, salt: u64, u: int)
    requires
        rows.len() < NEW_MARK,
        ids_ok(rows),
        0 <= u < rows.len(),
    ensures
        reverse_rows(rows, rows.len(), cap, salt).lists[u].len() == (if edges_into(rows, u, rows.len()) < cap { edges_into(rows, u, rows.len()) } else { cap }),
{
    lemma_reverse_rows_keep(rows, rows.len(), cap, salt, u);
    lemma_reverse_rows(rows, rows.len(), cap, salt);
}

proof fn lemma_seeds_stay(seeds: Seq<u32>, own_id: u32, n: nat, k: nat, w: u32)
    requires
        seeds.len() <= k,
        seeds.contains(w),
        w < n,
        w != own_id,
    ensures
        seeded(seeds, own_id, n, k).contains(w),
        seeded(seeds, own_id, n, k).len() <= seeds.len(),
    decreases seeds.len(),
{
    let head = seeds.drop_last();
    lemma_seeded_short(head, own_id, n, k);
    let before = seeded(head, own_id, n, k);
    let after = seeded(seeds, own_id, n, k);
    let i = choose|i: int| 0 <= i < seeds.len() && seeds[i] == w;
    if i < head.len() {
        assert(head[i] == w);
        lemma_seeds_stay(head, own_id, n, k, w);
        let j = choose|j: int| 0 <= j < before.len() && before[j] == w;
        assert(after[j] == w);
    } else if !before.contains(w) {
        assert(after[before.len() as int] == w);
    }
}

proof fn lemma_seeded_short(seeds: Seq<u32>, own_id: u32, n: nat, k: nat)
    ensures
        seeded(seeds, own_id, n, k).len() <= seeds.len(),
    decreases seeds.len(),
{
    if seeds.len() > 0 {
        lemma_seeded_short(seeds.drop_last(), own_id, n, k);
    }
}

proof fn lemma_drawn_keeps(row: Seq<u32>, own_id: u32, n: nat, k: nat, state: u64, left: nat, w: u32)
    requires
        row.contains(w),
    ensures
        drawn_row(row, own_id, n, k, state, left).contains(w),
    decreases left,
{
    if row.len() < k && left > 0 {
        let s = crate::knn::drawn(state);
        let x = (s as int % n as int) as u32;
        let i = choose|i: int| 0 <= i < row.len() && row[i] == w;
        assert(row.push(x)[i] == w);
        lemma_drawn_keeps(row, own_id, n, k, s, (left - 1) as nat, w);
        lemma_drawn_keeps(row.push(x), own_id, n, k, s, (left - 1) as nat, w);
    }
}

proof fn lemma_completed_keeps(row: Seq<u32>, own_id: u32, n: nat, k: nat, w: u32)
    requires
        row.contains(w),
    ensures
        completed(row, own_id, n, k).contains(w),
    decreases n,
{
    if n > 0 {
        lemma_completed_keeps(row, own_id, (n - 1) as nat, k, w);
        let before = completed(row, own_id, (n - 1) as nat, k);
        let i = choose|i: int| 0 <= i < before.len() && before[i] == w;
        let after = completed(row, own_id, n, k);
        assert(after[i] == w);
    }
}

/// A row starts with its seeds: where there are no more of them than edges, every one that names
/// another point is among the neighbours.
pub proof fn law_seeds_are_first_neighbours(seeds: Seq<u32>, own_id: u32, n: nat, k: nat, w: u32)
    requires
        seeds.len() <= k,
        seeds.contains(w),
        w < n,
        w != own_id,
    ensures
        start_row(seeds, own_id, n, k).contains(w),
{
    lemma_seeds_stay(seeds, own_id, n, k, w);
    let a = seeded(seeds, own_id, n, k);
    let state = (own_id as u64) ^ SPREAD;
    lemma_drawn_keeps(a, own_id, n, k, state, DRAWS as nat, w);
    lemma_completed_keeps(drawn_row(a, own_id, n, k, state, DRAWS as nat), own_id, n, k, w);
}

} // verus!
