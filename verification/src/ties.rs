//! How ties are broken: which of equally good candidates stay, and in which order.

use crate::knn::{falling, improved, lemma_set_in, offered, place_of, Edge};
use crate::order::{lemma_place, place, sorted, Ranked};
use crate::rerank::{
    deduped, lemma_nearest, lemma_nearest_all, lemma_pool_pass, lists, nearest, nearest_upto, one_score_per_id, pass_step, pool_pass,
    slots_exist, NO_POINT,
};
use vstd::prelude::*;

verus! {

// ---------------------------------------------------------------- the bounded list of a rerank

/// Entry `e` goes before candidate `c`: it is nearer, or as near and of the lower id or offered earlier.
pub open spec fn beats(cands: Seq<(i32, u32)>, e: (i32, u32), c: int) -> bool {
    e.0 < cands[c].0 || (e.0 == cands[c].0 && (e.1 < cands[c].1 || exists|p: int| 0 <= p < c && #[trigger] cands[p] == e))
}

proof fn lemma_placed(r: Seq<(i32, u32)>, x: (i32, u32))
    requires
        sorted(r),
    ensures
        forall|e: (i32, u32)| #[trigger] place(r, x).contains(e) ==> e == x || r.contains(e),
        forall|e: (i32, u32)| #[trigger] r.contains(e) ==> place(r, x).contains(e),
        place(r, x).contains(x),
{
    broadcast use vstd::seq_lib::group_to_multiset_ensures;

    lemma_place(r, x);
    let p = place(r, x);
    assert forall|e: (i32, u32)| #[trigger] p.contains(e) implies e == x || r.contains(e) by {
        assert(p.to_multiset().contains(e));
    }
    assert forall|e: (i32, u32)| #[trigger] r.contains(e) implies p.contains(e) by {
        assert(r.to_multiset().contains(e));
        assert(p.to_multiset().contains(e));
    }
    assert(p.to_multiset().contains(x));
}

proof fn lemma_beats(cands: Seq<(i32, u32)>, m: nat, n: nat, c: int, e: (i32, u32))
    requires
        m > 0,
        n <= cands.len(),
        one_score_per_id(cands),
        0 <= c < n,
        !lists(nearest_upto(cands, m, n), cands[c].1),
        nearest_upto(cands, m, n).contains(e),
    ensures
        beats(cands, e, c),
    decreases n,
{
    let k = (n - 1) as nat;
    let h = nearest_upto(cands, m, k);
    let r = nearest_upto(cands, m, n);
    let x = cands[k as int];
    lemma_nearest(cands, m, k);
    lemma_nearest_all(cands, m, k);
    let i = choose|i: int| 0 <= i < r.len() && r[i] == e;
    if h.len() >= m && x.0 >= h.last().0 {
        assert(h[i] == e);
        if c < k {
            lemma_beats(cands, m, k, c, e);
        } else {
            assert(h[i].le(h[h.len() - 1]));
            let p = choose|p: int| 0 <= p < k && #[trigger] cands[p] == h[i];
            assert(cands[p] == e);
        }
    } else if lists(h, x.1) {
        assert(c < k);
        lemma_beats(cands, m, k, c, e);
    } else if h.len() >= m {
        let head = h.drop_last();
        let y = h.last();
        assert(h[h.len() - 1] == y);
        assert forall|i: int, j: int| 0 <= i <= j < head.len() implies #[trigger] head[i].le(#[trigger] head[j]) by {
            assert(h[i].le(h[j]));
        }
        lemma_placed(head, x);
        if c == k {
            let z = choose|z: int| 0 <= z < r.len() && r[z] == x;
            assert(r[z].1 == cands[c].1);
        }
        if lists(h, cands[c].1) {
            let z = choose|z: int| 0 <= z < h.len() && (#[trigger] h[z]).1 == cands[c].1;
            if z < head.len() {
                assert(head.contains(head[z]));
                assert(r.contains(head[z]));
                let w = choose|w: int| 0 <= w < r.len() && r[w] == head[z];
                assert(r[w].1 == cands[c].1);
            }
            let p = choose|p: int| 0 <= p < k && #[trigger] cands[p] == h[z];
            assert(cands[p].1 == cands[c].1);
            assert(cands[c] == y);
            if e != x {
                let w = choose|w: int| 0 <= w < head.len() && head[w] == e;
                assert(h[w].le(h[h.len() - 1]));
                assert(h[w].1 != h[h.len() - 1].1);
            }
        } else {
            assert(h.contains(y));
            if e != x {
                let w = choose|w: int| 0 <= w < head.len() && head[w] == e;
                assert(h[w] == e);
                assert(h.contains(e));
                lemma_beats(cands, m, k, c, e);
            } else {
                lemma_beats(cands, m, k, c, y);
            }
        }
    } else {
        lemma_placed(h, x);
        if c < k {
            assert(lists(h, cands[c].1));
            let z = choose|z: int| 0 <= z < h.len() && (#[trigger] h[z]).1 == cands[c].1;
            assert(h.contains(h[z]));
            assert(r.contains(h[z]));
            let w = choose|w: int| 0 <= w < r.len() && r[w] == h[z];
            assert(r[w].1 == cands[c].1);
        } else {
            let w = choose|w: int| 0 <= w < r.len() && r[w] == x;
            assert(r[w].1 == cands[c].1);
        }
    }
}

/// A candidate that the bounded list leaves out is beaten by every entry: the entry is nearer, or as near
/// and of the lower id, or as near and offered earlier.
pub proof fn law_left_out_candidates_are_beaten(cands: Seq<(i32, u32)>, m: nat, c: int, i: int)
    requires
        m > 0,
        one_score_per_id(cands),
        0 <= c < cands.len(),
        !lists(nearest(cands, m), cands[c].1),
        0 <= i < nearest(cands, m).len(),
    ensures
        beats(cands, nearest(cands, m)[i], c),
{
    assert(nearest(cands, m).contains(nearest(cands, m)[i]));
    lemma_beats(cands, m, cands.len(), c, nearest(cands, m)[i]);
}

// ---------------------------------------------------------------- one candidate per point

/// Among the candidates of a point the first of the lowest score stands for it.
pub proof fn law_first_of_equals_stands_for_the_point(pool: Seq<(i32, u32)>, slot_orig: Seq<u32>, i: int) -> (x: int)
    requires
        slots_exist(pool, slot_orig),
        pool.len() >= 2,
        0 <= i < deduped(pool, slot_orig).len(),
    ensures
        0 <= x < pool.len(),
        pool[x] == deduped(pool, slot_orig)[i],
        slot_orig[pool[x].1 as int] != NO_POINT,
        forall|y: int| 0 <= y < pool.len() && slot_orig[(#[trigger] pool[y]).1 as int] == slot_orig[pool[x].1 as int] ==> pool[x].0 < pool[y].0 || (pool[x].0 == pool[y].0 && x <= y),
{
    lemma_first_of_equals(pool, slot_orig, pool.len(), i)
}

proof fn lemma_first_of_equals(pool: Seq<(i32, u32)>, slot_orig: Seq<u32>, n: nat, i: int) -> (x: int)
    requires
        slots_exist(pool, slot_orig),
        n <= pool.len(),
        0 <= i < pool_pass(pool, slot_orig, n).best.len(),
    ensures
        0 <= x < n,
        pool[x] == pool_pass(pool, slot_orig, n).best[i],
        slot_orig[pool[x].1 as int] != NO_POINT,
        slot_orig[pool[x].1 as int] == pool_pass(pool, slot_orig, n).origs[i],
        forall|y: int| 0 <= y < n && slot_orig[(#[trigger] pool[y]).1 as int] == slot_orig[pool[x].1 as int] ==> pool[x].0 < pool[y].0 || (pool[x].0 == pool[y].0 && x <= y),
    decreases n,
{
    lemma_pool_pass(pool, slot_orig, n);
    let m = (n - 1) as nat;
    lemma_pool_pass(pool, slot_orig, m);
    let s = pool_pass(pool, slot_orig, m);
    let t = pool_pass(pool, slot_orig, n);
    let e = pool[m as int];
    let o = slot_orig[e.1 as int];
    assert(t == pass_step(s, slot_orig, e));
    if i >= s.best.len() {
        assert forall|y: int| 0 <= y < m implies slot_orig[(#[trigger] pool[y]).1 as int] != o by {
            if slot_orig[pool[y].1 as int] == o {
                let j = choose|j: int| 0 <= j < s.origs.len() && #[trigger] s.origs[j] == slot_orig[pool[y].1 as int] && s.best[j].0 <= pool[y].0;
                assert(s.origs.contains(o));
            }
        }
        m as int
    } else {
        let x = lemma_first_of_equals(pool, slot_orig, m, i);
        if o != NO_POINT && s.origs.contains(o) {
            let p = s.origs.index_of(o);
            assert(s.origs[p] == o);
            if e.0 < s.best[p].0 && p == i {
                m as int
            } else {
                if o == s.origs[i] {
                    assert(p == i);
                }
                x
            }
        } else {
            if o == s.origs[i] {
                assert(s.origs.contains(o));
            }
            x
        }
    }
}

/// The points of a reduced pool stand in the order of their first candidates: some candidate of the earlier
/// point comes before all those of the later one.
pub proof fn law_points_stand_in_order_of_occurrence(pool: Seq<(i32, u32)>, slot_orig: Seq<u32>, i: int, j: int) -> (x: int)
    requires
        slots_exist(pool, slot_orig),
        pool.len() >= 2,
        0 <= i < j < deduped(pool, slot_orig).len(),
    ensures
        0 <= x < pool.len(),
        slot_orig[pool[x].1 as int] == slot_orig[deduped(pool, slot_orig)[i].1 as int],
        forall|y: int| 0 <= y <= x ==> slot_orig[(#[trigger] pool[y]).1 as int] != slot_orig[deduped(pool, slot_orig)[j].1 as int],
{
    lemma_pool_pass(pool, slot_orig, pool.len());
    lemma_order_of_occurrence(pool, slot_orig, pool.len(), i, j)
}

proof fn lemma_order_of_occurrence(pool: Seq<(i32, u32)>, slot_orig: Seq<u32>, n: nat, i: int, j: int) -> (x: int)
    requires
        slots_exist(pool, slot_orig),
        n <= pool.len(),
        0 <= i < j < pool_pass(pool, slot_orig, n).origs.len(),
    ensures
        0 <= x < n,
        slot_orig[pool[x].1 as int] == pool_pass(pool, slot_orig, n).origs[i],
        forall|y: int| 0 <= y <= x ==> slot_orig[(#[trigger] pool[y]).1 as int] != pool_pass(pool, slot_orig, n).origs[j],
    decreases n,
{
    let m = (n - 1) as nat;
    lemma_pool_pass(pool, slot_orig, n);
    lemma_pool_pass(pool, slot_orig, m);
    let s = pool_pass(pool, slot_orig, m);
    let t = pool_pass(pool, slot_orig, n);
    let e = pool[m as int];
    let o = slot_orig[e.1 as int];
    assert(t == pass_step(s, slot_orig, e));
    if j < s.origs.len() {
        lemma_order_of_occurrence(pool, slot_orig, m, i, j)
    } else {
        let x = lemma_first_of_equals(pool, slot_orig, m, i);
        assert forall|y: int| 0 <= y <= x implies slot_orig[(#[trigger] pool[y]).1 as int] != o by {
            if slot_orig[pool[y].1 as int] == o {
                let z = choose|z: int| 0 <= z < s.origs.len() && #[trigger] s.origs[z] == slot_orig[pool[y].1 as int] && s.best[z].0 <= pool[y].0;
                assert(s.origs.contains(o));
            }
        }
        x
    }
}

// ---------------------------------------------------------------- rows of a neighbour graph

/// Edge `x` of a list goes before edge `y`: it is nearer, or as near and earlier in the list.
pub open spec fn goes_before(all: Seq<Edge>, x: int, y: int) -> bool {
    all[x].sim > all[y].sim || (all[x].sim == all[y].sim && x < y)
}

/// A row to which edges were offered holds the nearest of its own and of those, nearest first, and of
/// equally near ones those that came first: its own before the offered ones.
pub proof fn law_rows_keep_the_nearest_and_first(row: Seq<Edge>, edges: Seq<Edge>) -> (at: Seq<int>)
    requires
        falling(row),
    ensures
        at.len() == row.len(),
        improved(row, edges).len() == row.len(),
        forall|i: int| 0 <= i < at.len() ==> 0 <= #[trigger] at[i] < row.len() + edges.len() && improved(row, edges)[i] == (row + edges)[at[i]],
        forall|i: int, j: int| 0 <= i < j < at.len() ==> goes_before(row + edges, #[trigger] at[i], #[trigger] at[j]),
        forall|i: int, b: int| 0 <= i < at.len() && 0 <= b < row.len() + edges.len() && !#[trigger] at.contains(b) ==> goes_before(row + edges, #[trigger] at[i], b),
    decreases edges.len(),
{
    let all = row + edges;
    if edges.len() == 0 {
        let at = Seq::new(row.len(), |i: int| i);
        assert(all =~= row);
        assert forall|i: int, b: int| 0 <= i < at.len() && 0 <= b < row.len() + edges.len() && !#[trigger] at.contains(b) implies goes_before(all, #[trigger] at[i], b) by {
            assert(at[b] == b);
        }
        at
    } else {
        let head = edges.drop_last();
        let e = edges.last();
        let n = all.len() - 1;
        let at = law_rows_keep_the_nearest_and_first(row, head);
        let before = improved(row, head);
        let next = improved(row, edges);
        assert(next == offered(before, e));
        assert(all[n] == e);
        assert forall|b: int| 0 <= b < n implies (row + head)[b] == all[b] by {
        }
        if before.len() == 0 || e.sim <= before.last().sim {
            assert forall|i: int, b: int| 0 <= i < at.len() && 0 <= b < row.len() + edges.len() && !#[trigger] at.contains(b) implies goes_before(all, #[trigger] at[i], b) by {
                if b < n {
                    assert(goes_before(row + head, at[i], b));
                } else {
                    let l = at.len() - 1;
                    if i < l {
                        assert(goes_before(row + head, at[i], at[l]));
                    }
                    assert(before.last() == all[at[l]]);
                }
            }
            assert forall|i: int, j: int| 0 <= i < j < at.len() implies goes_before(all, #[trigger] at[i], #[trigger] at[j]) by {
                assert(goes_before(row + head, at[i], at[j]));
            }
            at
        } else {
            let rest = before.drop_last();
            lemma_set_in(rest, e);
            let p = place_of(rest, e) as int;
            let l = at.len() - 1;
            let kept = at.drop_last();
            let r = kept.insert(p, n);
            assert(next =~= rest.insert(p, e));
            assert forall|i: int| 0 <= i < l implies rest[i] == all[#[trigger] at[i]] && goes_before(all, at[i], at[l]) by {
                assert(goes_before(row + head, at[i], at[l]));
            }
            assert(all[at[l]].sim < e.sim);
            assert forall|i: int| 0 <= i < r.len() implies 0 <= #[trigger] r[i] < row.len() + edges.len() && next[i] == all[r[i]] by {
                if i < p {
                    assert(r[i] == at[i]);
                } else if i > p {
                    assert(r[i] == at[i - 1]);
                }
            }
            assert forall|i: int| 0 <= i < p implies all[#[trigger] at[i]].sim >= e.sim by {
                if i < p - 1 {
                    assert(goes_before(row + head, at[i], at[p - 1]));
                }
                assert(rest[p - 1] == all[at[p - 1]]);
            }
            assert forall|i: int| p <= i < l implies all[#[trigger] at[i]].sim < e.sim by {
                assert(rest[i].sim < e.sim);
            }
            assert forall|i: int, j: int| 0 <= i < j < r.len() implies goes_before(all, #[trigger] r[i], #[trigger] r[j]) by {
                let x = if i < p {
                    i
                } else {
                    i - 1
                };
                let y = if j < p {
                    j
                } else {
                    j - 1
                };
                if i == p {
                    assert(r[j] == at[y]);
                } else if j == p {
                    assert(r[i] == at[x]);
                } else {
                    assert(r[i] == at[x] && r[j] == at[y]);
                    assert(goes_before(row + head, at[x], at[y]));
                }
            }
            assert forall|i: int, b: int| 0 <= i < r.len() && 0 <= b < row.len() + edges.len() && !#[trigger] r.contains(b) implies goes_before(all, #[trigger] r[i], b) by {
                if b == n {
                    assert(r[p] == n);
                } else {
                    let x = if i < p {
                        i
                    } else {
                        i - 1
                    };
                    if at.contains(b) {
                        let z = choose|z: int| 0 <= z < at.len() && at[z] == b;
                        if z < l {
                            let w = if z < p {
                                z
                            } else {
                                z + 1
                            };
                            assert(r[w] == b);
                        }
                        assert(b == at[l]);
                        if i != p {
                            assert(r[i] == at[x]);
                        }
                    } else {
                        assert(goes_before(row + head, at[l], b));
                        if i != p {
                            assert(r[i] == at[x]);
                            assert(goes_before(row + head, at[x], b));
                        }
                    }
                }
            }
            r
        }
    }
}

} // verus!
