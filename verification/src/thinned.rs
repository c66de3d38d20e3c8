//! What pruning keeps of a point's neighbours: the nearest, then each that no kept one stands before,
//! then the nearest of the rest.

use crate::double::{double_of, half_even, spare};
use crate::ibin::I8Bin;
use crate::layout::members;
use crate::order::{ascending, lemma_ascending, Ranked};
use crate::prune::{
    at_least_one, behind, candidates, filled, lemma_apart_fits, lemma_candidates, lemma_spare, lemma_spare_low, measured, named, occluded, other_points, pruned,
    row_in, spelled, spread, squared, times_at_most, two_way, Factor,
};
use crate::rerank::NO_POINT;
use crate::simd::{dim_limit, dot, l2};
use crate::stream::{lemma_without_repeats, without_repeats};
use vstd::arithmetic::power2::pow2;
use vstd::prelude::*;

verus! {

/// How far apart two rows are: their squared distance, or less the larger their inner product is.
pub open spec fn gap(data: I8Bin<'_>, euclid: bool, a: int, b: int) -> int {
    if euclid {
        l2(data.spec_row(a), data.spec_row(b))
    } else {
        -dot(data.spec_row(a), data.spec_row(b))
    }
}

/// A given id that names another point than `v`.
pub open spec fn eligible(ids: Seq<u32>, v: int, w: u32) -> bool {
    ids.contains(w) && w != v && w != NO_POINT
}

/// `a` is nearer to `v` than `b`, or as near with a lower id.
pub open spec fn sooner(data: I8Bin<'_>, euclid: bool, v: int, a: u32, b: u32) -> bool {
    gap(data, euclid, v, a as int) < gap(data, euclid, v, b as int) || (gap(data, euclid, v, a as int) == gap(data, euclid, v, b as int) && a < b)
}

/// `p` stands before `c` as seen from `v`: the stretched gap between the two is no more than that of `c`
/// from `v`.
pub open spec fn stands_before(data: I8Bin<'_>, euclid: bool, f: Factor, v: int, p: u32, c: u32) -> bool {
    times_at_most(f, gap(data, euclid, p as int, c as int), gap(data, euclid, v, c as int))
}

/// `chosen` is what the first pass keeps for `v`: eligible points from near to far, none with a chosen
/// one before it, and every other eligible point has a nearer chosen one before it or `r` nearer ones.
pub open spec fn well_chosen(data: I8Bin<'_>, euclid: bool, f: Factor, v: int, ids: Seq<u32>, r: nat, chosen: Seq<u32>) -> bool {
    &&& chosen.len() <= r
    &&& forall|i: int| 0 <= i < chosen.len() ==> eligible(ids, v, #[trigger] chosen[i])
    &&& forall|i: int, j: int| 0 <= i < j < chosen.len() ==> sooner(data, euclid, v, #[trigger] chosen[i], #[trigger] chosen[j]) && !stands_before(data, euclid, f, v, chosen[i], chosen[j])
    &&& forall|c: u32| eligible(ids, v, c) && !chosen.contains(c) ==> {
        ||| chosen.len() == r && forall|i: int| 0 <= i < r ==> sooner(data, euclid, v, #[trigger] chosen[i], c)
        ||| exists|i: int| 0 <= i < chosen.len() && #[trigger] sooner(data, euclid, v, chosen[i], c) && stands_before(data, euclid, f, v, chosen[i], c)
    }
}

/// One of the first `n` candidates is `w`.
spec fn at(cand: Seq<(i64, u32)>, n: int, w: u32) -> bool {
    exists|i: int| 0 <= i < n && (#[trigger] cand[i]).1 == w
}

proof fn lemma_at_grows(cand: Seq<(i64, u32)>, n: int, m: int, w: u32)
    requires
        at(cand, n, w),
        n <= m,
    ensures
        at(cand, m, w),
{
    let i = choose|i: int| 0 <= i < n && (#[trigger] cand[i]).1 == w;
    assert(cand[i].1 == w);
}

proof fn lemma_other_points_all(ids: Seq<u32>, v: u32, w: u32)
    requires
        ids.contains(w),
        w != v,
        w != NO_POINT,
    ensures
        other_points(ids, v).contains(w),
    decreases ids.len(),
{
    let head = ids.drop_last();
    let before = other_points(head, v);
    let after = other_points(ids, v);
    let i = choose|i: int| 0 <= i < ids.len() && ids[i] == w;
    if i < head.len() {
        assert(head[i] == w);
        lemma_other_points_all(head, v, w);
        let j = choose|j: int| 0 <= j < before.len() && before[j] == w;
        assert(after[j] == w);
    } else {
        assert(after[before.len() as int] == w);
    }
}

/// The candidates are the eligible points, from near to far.
proof fn lemma_all_candidates(data: I8Bin<'_>, euclid: bool, v: int, ids: Seq<u32>)
    requires
        data.wf(),
        data.d <= dim_limit(euclid),
        data.nb <= u32::MAX,
        named(ids, data.nb as nat),
        0 <= v < data.nb,
    ensures
        ({
            let cand = candidates(data, euclid, v, ids);
            &&& forall|i: int| 0 <= i < cand.len() ==> eligible(ids, v, (#[trigger] cand[i]).1) && cand[i].0 == gap(data, euclid, v, cand[i].1 as int) && cand[i].1 < data.nb
            &&& forall|i: int, j: int| 0 <= i < j < cand.len() ==> sooner(data, euclid, v, (#[trigger] cand[i]).1, (#[trigger] cand[j]).1)
            &&& forall|c: u32| eligible(ids, v, c) ==> #[trigger] at(cand, cand.len() as int, c)
        }),
{
    broadcast use vstd::seq_lib::group_to_multiset_ensures;

    let cand = candidates(data, euclid, v, ids);
    lemma_candidates(data, euclid, v, ids);
    assert forall|i: int| 0 <= i < cand.len() implies eligible(ids, v, (#[trigger] cand[i]).1) && cand[i].0 == gap(data, euclid, v, cand[i].1 as int) && cand[i].1 < data.nb by {
        let c = cand[i];
        assert(c.1 < data.nb);
        lemma_apart_fits(data, euclid, v, c.1 as int);
    }
    assert forall|i: int, j: int| 0 <= i < j < cand.len() implies sooner(data, euclid, v, (#[trigger] cand[i]).1, (#[trigger] cand[j]).1) by {
        assert(cand[i].le(cand[j]));
        assert(cand[i].1 != cand[j].1);
    }
    let others = other_points(ids, v as u32);
    let up = ascending(others);
    lemma_ascending(others);
    lemma_without_repeats(up);
    let once = without_repeats(up);
    let dist = measured(data, euclid, v, once);
    lemma_ascending(dist);
    assert forall|c: u32| eligible(ids, v, c) implies #[trigger] at(cand, cand.len() as int, c) by {
        lemma_other_points_all(ids, v as u32, c);
        assert(others.to_multiset().contains(c));
        assert(up.to_multiset().contains(c));
        assert(up.contains(c));
        assert(once.contains(c));
        let i = choose|i: int| 0 <= i < once.len() && once[i] == c;
        assert(dist[i].1 == c);
        assert(dist.contains(dist[i]));
        assert(dist.to_multiset().contains(dist[i]));
        assert(cand.to_multiset().contains(dist[i]));
        assert(cand.contains(dist[i]));
        let j = choose|j: int| 0 <= j < cand.len() && cand[j] == dist[i];
        assert(cand[j].1 == c);
    }
}

proof fn lemma_spread_all(data: I8Bin<'_>, euclid: bool, f: Factor, cand: Seq<(i64, u32)>, r: nat, n: nat)
    requires
        n <= cand.len(),
    ensures
        ({
            let s = spread(data, euclid, f, cand, r, n);
            &&& s.len() <= r
            &&& forall|j: int| 0 <= j < s.len() ==> at(cand, n as int, #[trigger] s[j])
            &&& forall|j: int, i: int| 0 <= j < i < s.len() ==> exists|x: int| 0 <= x < n && (#[trigger] cand[x]).1 == #[trigger] s[i] && at(cand, x, #[trigger] s[j]) && !behind(data, euclid, f, s[j], cand[x])
            &&& forall|x: int| 0 <= x < n ==> {
                ||| s.contains((#[trigger] cand[x]).1)
                ||| s.len() == r && forall|j: int| 0 <= j < s.len() ==> at(cand, x, #[trigger] s[j])
                ||| exists|j: int| 0 <= j < s.len() && at(cand, x, #[trigger] s[j]) && behind(data, euclid, f, s[j], cand[x])
            }
        }),
    decreases n,
{
    if n > 0 {
        let m = (n - 1) as nat;
        lemma_spread_all(data, euclid, f, cand, r, m);
        let b = spread(data, euclid, f, cand, r, m);
        let s = spread(data, euclid, f, cand, r, n);
        let c = cand[m as int];
        assert forall|j: int| 0 <= j < s.len() implies at(cand, n as int, #[trigger] s[j]) by {
            if j < b.len() {
                assert(s[j] == b[j]);
                lemma_at_grows(cand, m as int, n as int, b[j]);
            } else {
                assert(cand[m as int].1 == s[j]);
            }
        }
        assert forall|j: int, i: int| 0 <= j < i < s.len() implies exists|x: int| 0 <= x < n && (#[trigger] cand[x]).1 == #[trigger] s[i] && at(cand, x, #[trigger] s[j]) && !behind(data, euclid, f, s[j], cand[x]) by {
            if i < b.len() {
                assert(s[i] == b[i] && s[j] == b[j]);
                let x = choose|x: int| 0 <= x < m && (#[trigger] cand[x]).1 == b[i] && at(cand, x, b[j]) && !behind(data, euclid, f, b[j], cand[x]);
                assert(cand[x].1 == s[i]);
            } else {
                assert(s[j] == b[j]);
                assert(at(cand, m as int, b[j]));
                assert(!behind(data, euclid, f, b[j], c));
                assert(cand[m as int].1 == s[i]);
            }
        }
        assert forall|x: int| 0 <= x < n implies {
            ||| s.contains((#[trigger] cand[x]).1)
            ||| s.len() == r && forall|j: int| 0 <= j < s.len() ==> at(cand, x, #[trigger] s[j])
            ||| exists|j: int| 0 <= j < s.len() && at(cand, x, #[trigger] s[j]) && behind(data, euclid, f, s[j], cand[x])
        } by {
            if x < m {
                if b.contains(cand[x].1) {
                    let j = choose|j: int| 0 <= j < b.len() && b[j] == cand[x].1;
                    assert(s[j] == cand[x].1);
                } else if b.len() == r && forall|j: int| 0 <= j < b.len() ==> at(cand, x, #[trigger] b[j]) {
                    assert(s == b);
                } else {
                    let j = choose|j: int| 0 <= j < b.len() && at(cand, x, #[trigger] b[j]) && behind(data, euclid, f, b[j], cand[x]);
                    assert(s[j] == b[j]);
                }
            } else if b.len() >= r {
                assert(s == b);
            } else if occluded(data, euclid, f, b, c) {
                let j = choose|j: int| 0 <= j < b.len() && behind(data, euclid, f, #[trigger] b[j], c);
                assert(at(cand, m as int, b[j]));
                assert(s[j] == b[j]);
            } else {
                assert(s[b.len() as int] == c.1);
            }
        }
    }
}

proof fn lemma_filled_all(chosen: Seq<u32>, cand: Seq<(i64, u32)>, r: nat, n: nat)
    requires
        n <= cand.len(),
        chosen.len() <= r,
    ensures
        ({
            let t = filled(chosen, cand, r, n);
            &&& chosen.len() <= t.len() <= r
            &&& t.take(chosen.len() as int) == chosen
            &&& forall|j: int| chosen.len() <= j < t.len() ==> at(cand, n as int, #[trigger] t[j]) && !t.take(j).contains(t[j])
            &&& forall|j: int, i: int| chosen.len() <= j < i < t.len() ==> exists|x: int| 0 <= x < n && (#[trigger] cand[x]).1 == #[trigger] t[i] && at(cand, x, #[trigger] t[j])
            &&& forall|x: int| 0 <= x < n ==> {
                ||| t.contains((#[trigger] cand[x]).1)
                ||| t.len() == r && forall|j: int| chosen.len() <= j < t.len() ==> at(cand, x, #[trigger] t[j])
            }
        }),
    decreases n,
{
    let t = filled(chosen, cand, r, n);
    if n == 0 {
        assert(t.take(chosen.len() as int) =~= chosen);
    } else {
        let m = (n - 1) as nat;
        lemma_filled_all(chosen, cand, r, m);
        let b = filled(chosen, cand, r, m);
        let c = cand[m as int];
        assert(t.take(chosen.len() as int) =~= b.take(chosen.len() as int));
        assert forall|j: int| chosen.len() <= j < t.len() implies at(cand, n as int, #[trigger] t[j]) && !t.take(j).contains(t[j]) by {
            if j < b.len() {
                assert(t[j] == b[j]);
                lemma_at_grows(cand, m as int, n as int, b[j]);
                assert(t.take(j) =~= b.take(j));
            } else {
                assert(cand[m as int].1 == t[j]);
                assert(t.take(j) =~= b);
            }
        }
        assert forall|j: int, i: int| chosen.len() <= j < i < t.len() implies exists|x: int| 0 <= x < n && (#[trigger] cand[x]).1 == #[trigger] t[i] && at(cand, x, #[trigger] t[j]) by {
            if i < b.len() {
                assert(t[i] == b[i] && t[j] == b[j]);
                let x = choose|x: int| 0 <= x < m && (#[trigger] cand[x]).1 == b[i] && at(cand, x, b[j]);
                assert(cand[x].1 == t[i]);
            } else {
                assert(t[j] == b[j]);
                assert(at(cand, m as int, b[j]));
                assert(cand[m as int].1 == t[i]);
            }
        }
        assert forall|x: int| 0 <= x < n implies {
            ||| t.contains((#[trigger] cand[x]).1)
            ||| t.len() == r && forall|j: int| chosen.len() <= j < t.len() ==> at(cand, x, #[trigger] t[j])
        } by {
            if x < m {
                if b.contains(cand[x].1) {
                    let j = choose|j: int| 0 <= j < b.len() && b[j] == cand[x].1;
                    assert(t[j] == cand[x].1);
                } else {
                    assert(t == b);
                }
            } else if b.len() < r && !b.contains(c.1) {
                assert(t[b.len() as int] == c.1);
            } else if b.contains(c.1) {
                assert(t == b);
            } else {
                assert(t == b);
                assert forall|j: int| chosen.len() <= j < t.len() implies at(cand, x, #[trigger] t[j]) by {
                    assert(at(cand, m as int, b[j]));
                }
            }
        }
    }
}

/// The edges that pruning leaves a point: they begin with the well chosen ones.
pub proof fn law_pruning_chooses_well(data: I8Bin<'_>, euclid: bool, f: Factor, v: int, ids: Seq<u32>, r: nat)
    requires
        data.wf(),
        data.d <= dim_limit(euclid),
        data.nb <= u32::MAX,
        named(ids, data.nb as nat),
        0 <= v < data.nb,
    ensures
        pruned(data, euclid, f, v, ids, r).len() == r,
        exists|chosen: Seq<u32>| #[trigger] well_chosen(data, euclid, f, v, ids, r, chosen) && pruned(data, euclid, f, v, ids, r).take(chosen.len() as int) == chosen,
{
    let cand = candidates(data, euclid, v, ids);
    let chosen = spread(data, euclid, f, cand, r, cand.len());
    let p = pruned(data, euclid, f, v, ids, r);
    lemma_spread_all(data, euclid, f, cand, r, cand.len());
    lemma_filled_all(chosen, cand, r, cand.len());
    let t = filled(chosen, cand, r, cand.len());
    assert forall|i: int| 0 <= i < chosen.len() implies #[trigger] p[i] == chosen[i] by {
        assert(t.take(chosen.len() as int)[i] == chosen[i]);
    }
    assert(p.take(chosen.len() as int) =~= chosen);
    lemma_spread_is_chosen(data, euclid, f, v, ids, r);
    assert(well_chosen(data, euclid, f, v, ids, r, chosen));
}

/// The choice is settled by its rules: two well chosen lists of a point are the same.
pub proof fn law_the_choice_is_unique(data: I8Bin<'_>, euclid: bool, f: Factor, v: int, ids: Seq<u32>, r: nat, a: Seq<u32>, b: Seq<u32>)
    requires
        well_chosen(data, euclid, f, v, ids, r, a),
        well_chosen(data, euclid, f, v, ids, r, b),
    ensures
        a == b,
{
    lemma_chosen_prefix(data, euclid, f, v, ids, r, a, b, a.len());
    lemma_chosen_prefix(data, euclid, f, v, ids, r, b, a, b.len());
    assert(a =~= b);
}

proof fn lemma_chosen_prefix(data: I8Bin<'_>, euclid: bool, f: Factor, v: int, ids: Seq<u32>, r: nat, a: Seq<u32>, b: Seq<u32>, n: nat)
    requires
        well_chosen(data, euclid, f, v, ids, r, a),
        well_chosen(data, euclid, f, v, ids, r, b),
        n <= a.len(),
    ensures
        n <= b.len(),
        forall|i: int| 0 <= i < n ==> #[trigger] a[i] == b[i],
    decreases n,
{
    if n > 0 {
        let m = n - 1;
        lemma_chosen_prefix(data, euclid, f, v, ids, r, a, b, m as nat);
        let x = a[m];
        assert(eligible(ids, v, x));
        if !b.contains(x) {
            if b.len() == r && forall|i: int| 0 <= i < r ==> sooner(data, euclid, v, #[trigger] b[i], x) {
                lemma_first_differs(data, euclid, f, v, ids, r, b, a, m);
            } else {
                let i = choose|i: int| 0 <= i < b.len() && #[trigger] sooner(data, euclid, v, b[i], x) && stands_before(data, euclid, f, v, b[i], x);
                if i < m {
                    assert(a[i] == b[i]);
                } else {
                    lemma_first_differs(data, euclid, f, v, ids, r, b, a, m);
                }
            }
        } else {
            let j = choose|j: int| 0 <= j < b.len() && b[j] == x;
            if j < m {
                assert(a[j] == b[j]);
                assert(sooner(data, euclid, v, a[j], a[m]));
            }
            if j > m {
                assert(sooner(data, euclid, v, b[m], b[j]));
                lemma_first_differs(data, euclid, f, v, ids, r, b, a, m);
            }
        }
    }
}

/// A list that agrees with another up to place `m` has no entry there that is nearer than the other's.
proof fn lemma_first_differs(data: I8Bin<'_>, euclid: bool, f: Factor, v: int, ids: Seq<u32>, r: nat, a: Seq<u32>, b: Seq<u32>, m: int)
    requires
        well_chosen(data, euclid, f, v, ids, r, a),
        well_chosen(data, euclid, f, v, ids, r, b),
        0 <= m < a.len(),
        m < b.len(),
        forall|i: int| 0 <= i < m ==> #[trigger] a[i] == b[i],
    ensures
        !sooner(data, euclid, v, a[m], b[m]),
{
    let x = a[m];
    if sooner(data, euclid, v, x, b[m]) {
        assert(eligible(ids, v, x));
        if b.contains(x) {
            let j = choose|j: int| 0 <= j < b.len() && b[j] == x;
            if j < m {
                assert(a[j] == b[j]);
                assert(sooner(data, euclid, v, a[j], a[m]));
            } else if j > m {
                assert(sooner(data, euclid, v, b[m], b[j]));
            }
        } else if b.len() == r && forall|i: int| 0 <= i < r ==> sooner(data, euclid, v, #[trigger] b[i], x) {
            assert(sooner(data, euclid, v, b[m], x));
        } else {
            let i = choose|i: int| 0 <= i < b.len() && #[trigger] sooner(data, euclid, v, b[i], x) && stands_before(data, euclid, f, v, b[i], x);
            if i < m {
                assert(a[i] == b[i]);
                assert(!stands_before(data, euclid, f, v, a[i], a[m]));
            } else if i > m {
                assert(sooner(data, euclid, v, b[m], b[i]));
            }
        }
    }
}

/// The nearest eligible point is the first edge. Under the inner product it has the largest one, else
/// the smallest distance.
pub proof fn law_first_edge_is_the_nearest(data: I8Bin<'_>, euclid: bool, f: Factor, v: int, ids: Seq<u32>, r: nat, u: u32)
    requires
        data.wf(),
        data.d <= dim_limit(euclid),
        data.nb <= u32::MAX,
        named(ids, data.nb as nat),
        0 <= v < data.nb,
        r >= 1,
        eligible(ids, v, u),
    ensures
        ({
            let w = pruned(data, euclid, f, v, ids, r)[0];
            &&& eligible(ids, v, w)
            &&& !euclid ==> dot(data.spec_row(v), data.spec_row(w as int)) >= dot(data.spec_row(v), data.spec_row(u as int))
            &&& euclid ==> l2(data.spec_row(v), data.spec_row(w as int)) <= l2(data.spec_row(v), data.spec_row(u as int))
        }),
{
    law_pruning_chooses_well(data, euclid, f, v, ids, r);
    let p = pruned(data, euclid, f, v, ids, r);
    let chosen = choose|chosen: Seq<u32>| #[trigger] well_chosen(data, euclid, f, v, ids, r, chosen) && p.take(chosen.len() as int) == chosen;
    assert(chosen.contains(u) || chosen.len() > 0);
    assert(p.take(chosen.len() as int)[0] == chosen[0]);
    if chosen.contains(u) {
        let i = choose|i: int| 0 <= i < chosen.len() && chosen[i] == u;
        if i > 0 {
            assert(sooner(data, euclid, v, chosen[0], chosen[i]));
        }
    } else if chosen.len() == r && forall|i: int| 0 <= i < r ==> sooner(data, euclid, v, #[trigger] chosen[i], u) {
        assert(sooner(data, euclid, v, chosen[0], u));
    } else {
        let i = choose|i: int| 0 <= i < chosen.len() && #[trigger] sooner(data, euclid, v, chosen[i], u) && stands_before(data, euclid, f, v, chosen[i], u);
        if i > 0 {
            assert(sooner(data, euclid, v, chosen[0], chosen[i]));
        }
    }
}

/// What stands behind the chosen edges: the nearest of the other eligible points, from near to far, as
/// long as there are any, and after them the last edge again; without an eligible point every edge leads
/// back.
pub proof fn law_spare_edges_go_to_the_nearest(data: I8Bin<'_>, euclid: bool, f: Factor, v: int, ids: Seq<u32>, r: nat, chosen: Seq<u32>)
    requires
        data.wf(),
        data.d <= dim_limit(euclid),
        data.nb <= u32::MAX,
        named(ids, data.nb as nat),
        0 <= v < data.nb,
        well_chosen(data, euclid, f, v, ids, r, chosen),
    ensures
        ({
            let p = pruned(data, euclid, f, v, ids, r);
            exists|n: int| #[trigger] spare_edges(data, euclid, v, ids, chosen, p, n)
        }),
{
    let cand = candidates(data, euclid, v, ids);
    let s = spread(data, euclid, f, cand, r, cand.len());
    let p = pruned(data, euclid, f, v, ids, r);
    law_pruning_chooses_well(data, euclid, f, v, ids, r);
    let c = choose|c: Seq<u32>| #[trigger] well_chosen(data, euclid, f, v, ids, r, c) && p.take(c.len() as int) == c;
    law_the_choice_is_unique(data, euclid, f, v, ids, r, c, chosen);
    lemma_all_candidates(data, euclid, v, ids);
    lemma_spread_all(data, euclid, f, cand, r, cand.len());
    lemma_filled_all(s, cand, r, cand.len());
    let t = filled(s, cand, r, cand.len());
    lemma_spread_is_chosen(data, euclid, f, v, ids, r);
    law_the_choice_is_unique(data, euclid, f, v, ids, r, s, chosen);
    let n = t.len() as int;
    assert forall|j: int| 0 <= j < n implies #[trigger] p[j] == t[j] by {
    }
    assert forall|j: int| chosen.len() <= j < n implies eligible(ids, v, #[trigger] p[j]) && !chosen.contains(p[j]) by {
        assert(p[j] == t[j]);
        assert(at(cand, cand.len() as int, t[j]));
        if chosen.contains(t[j]) {
            let i = choose|i: int| 0 <= i < chosen.len() && chosen[i] == t[j];
            assert(t.take(s.len() as int)[i] == s[i]);
            assert(t.take(j)[i] == t[j]);
        }
    }
    assert forall|i: int, j: int| chosen.len() <= i < j < n implies sooner(data, euclid, v, #[trigger] p[i], #[trigger] p[j]) by {
        assert(p[i] == t[i] && p[j] == t[j]);
        let x = choose|x: int| 0 <= x < cand.len() && (#[trigger] cand[x]).1 == t[j] && at(cand, x, t[i]);
        let y = choose|y: int| 0 <= y < x && (#[trigger] cand[y]).1 == t[i];
        assert(sooner(data, euclid, v, cand[y].1, cand[x].1));
    }
    assert forall|w: u32| eligible(ids, v, w) && !#[trigger] p.contains(w) implies n == p.len() && forall|j: int| chosen.len() <= j < n ==> sooner(data, euclid, v, #[trigger] p[j], w) by {
        assert(at(cand, cand.len() as int, w));
        let x = choose|x: int| 0 <= x < cand.len() && (#[trigger] cand[x]).1 == w;
        if t.contains(w) {
            let j = choose|j: int| 0 <= j < t.len() && t[j] == w;
            assert(p[j] == w);
        }
        assert(t.len() == r);
        assert forall|j: int| chosen.len() <= j < n implies sooner(data, euclid, v, #[trigger] p[j], w) by {
            assert(p[j] == t[j]);
            let y = choose|y: int| 0 <= y < x && (#[trigger] cand[y]).1 == t[j];
            assert(sooner(data, euclid, v, cand[y].1, cand[x].1));
        }
    }
    assert(spare_edges(data, euclid, v, ids, chosen, p, n));
}

/// The edges `p` of `v` after the chosen ones: up to place `n` the nearest others, then the last again.
pub open spec fn spare_edges(data: I8Bin<'_>, euclid: bool, v: int, ids: Seq<u32>, chosen: Seq<u32>, p: Seq<u32>, n: int) -> bool {
    &&& chosen.len() <= n <= p.len()
    &&& p.take(chosen.len() as int) == chosen
    &&& forall|j: int| chosen.len() <= j < n ==> eligible(ids, v, #[trigger] p[j]) && !chosen.contains(p[j])
    &&& forall|i: int, j: int| chosen.len() <= i < j < n ==> sooner(data, euclid, v, #[trigger] p[i], #[trigger] p[j])
    &&& forall|w: u32| eligible(ids, v, w) && !#[trigger] p.contains(w) ==> n == p.len() && forall|j: int| chosen.len() <= j < n ==> sooner(data, euclid, v, #[trigger] p[j], w)
    &&& forall|j: int| n <= j < p.len() ==> #[trigger] p[j] == (if n > 0 { p[n - 1] } else { v as u32 })
}

proof fn lemma_spread_is_chosen(data: I8Bin<'_>, euclid: bool, f: Factor, v: int, ids: Seq<u32>, r: nat)
    requires
        data.wf(),
        data.d <= dim_limit(euclid),
        data.nb <= u32::MAX,
        named(ids, data.nb as nat),
        0 <= v < data.nb,
    ensures
        well_chosen(data, euclid, f, v, ids, r, spread(data, euclid, f, candidates(data, euclid, v, ids), r, candidates(data, euclid, v, ids).len())),
{
    let cand = candidates(data, euclid, v, ids);
    let chosen = spread(data, euclid, f, cand, r, cand.len());
    lemma_all_candidates(data, euclid, v, ids);
    lemma_spread_all(data, euclid, f, cand, r, cand.len());
    assert forall|i: int| 0 <= i < chosen.len() implies eligible(ids, v, #[trigger] chosen[i]) by {
        assert(at(cand, cand.len() as int, chosen[i]));
    }
    assert forall|i: int, j: int| 0 <= i < j < chosen.len() implies sooner(data, euclid, v, #[trigger] chosen[i], #[trigger] chosen[j]) && !stands_before(data, euclid, f, v, chosen[i], chosen[j]) by {
        let x = choose|x: int| 0 <= x < cand.len() && (#[trigger] cand[x]).1 == chosen[j] && at(cand, x, chosen[i]) && !behind(data, euclid, f, chosen[i], cand[x]);
        let y = choose|y: int| 0 <= y < x && (#[trigger] cand[y]).1 == chosen[i];
        assert(sooner(data, euclid, v, cand[y].1, cand[x].1));
    }
    assert forall|c: u32| eligible(ids, v, c) && !chosen.contains(c) implies {
        ||| chosen.len() == r && forall|i: int| 0 <= i < r ==> sooner(data, euclid, v, #[trigger] chosen[i], c)
        ||| exists|i: int| 0 <= i < chosen.len() && #[trigger] sooner(data, euclid, v, chosen[i], c) && stands_before(data, euclid, f, v, chosen[i], c)
    } by {
        assert(at(cand, cand.len() as int, c));
        let x = choose|x: int| 0 <= x < cand.len() && (#[trigger] cand[x]).1 == c;
        if chosen.len() == r && forall|j: int| 0 <= j < chosen.len() ==> at(cand, x, #[trigger] chosen[j]) {
            assert forall|i: int| 0 <= i < r implies sooner(data, euclid, v, #[trigger] chosen[i], c) by {
                let y = choose|y: int| 0 <= y < x && (#[trigger] cand[y]).1 == chosen[i];
                assert(sooner(data, euclid, v, cand[y].1, cand[x].1));
            }
        } else {
            let i = choose|j: int| 0 <= j < chosen.len() && at(cand, x, #[trigger] chosen[j]) && behind(data, euclid, f, chosen[j], cand[x]);
            let y = choose|y: int| 0 <= y < x && (#[trigger] cand[y]).1 == chosen[i];
            assert(sooner(data, euclid, v, cand[y].1, cand[x].1));
        }
    }
}

// ---------------------------------------------------------------- the second pass

proof fn lemma_members_hold(out: Seq<u32>, r: nat, v: int, n: nat, w: u32)
    requires
        n <= out.len(),
        out.len() <= u32::MAX,
        r >= 1,
    ensures
        members(out, r, v, n).contains(w) <==> exists|i: int| 0 <= i < n && #[trigger] out[i] == v && i / r as int == w,
    decreases n,
{
    if n > 0 {
        let m = (n - 1) as nat;
        lemma_members_hold(out, r, v, m, w);
        let b = members(out, r, v, m);
        let a = members(out, r, v, n);
        let q = m as int / r as int;
        assert(0 <= q <= m) by (nonlinear_arith)
            requires
                q == m as int / r as int,
                r >= 1,
        ;
        if a.contains(w) {
            let j = choose|j: int| 0 <= j < a.len() && a[j] == w;
            if j < b.len() {
                assert(b[j] == w);
                let i = choose|i: int| 0 <= i < m && #[trigger] out[i] == v && i / r as int == w;
                assert(out[i] == v);
            } else {
                assert(out[m as int] == v);
            }
        }
        if exists|i: int| 0 <= i < n && #[trigger] out[i] == v && i / r as int == w {
            let i = choose|i: int| 0 <= i < n && #[trigger] out[i] == v && i / r as int == w;
            if i < m {
                assert(out[i] == v);
                let j = choose|j: int| 0 <= j < b.len() && b[j] == w;
                assert(a[j] == w);
            } else {
                assert(a[b.len() as int] == w);
            }
        }
    }
}

/// The second pass offers a point its own edges and, where no more than `cap` lead to it, every point
/// that has an edge to it.
pub proof fn law_second_pass_looks_both_ways(out: Seq<u32>, nb: nat, r: nat, v: int, cap: nat, w: u32)
    requires
        r >= 1,
        out.len() == nb * r,
        out.len() <= u32::MAX,
        0 <= v < nb,
        members(out, r, v, out.len()).len() <= cap,
    ensures
        two_way(out, r, v, cap).contains(w) <==> {
            ||| exists|j: int| 0 <= j < r && out[v * r + j] == w && #[trigger] edge_place(j)
            ||| w < nb && exists|j: int| 0 <= j < r && out[w * r + j] == v && #[trigger] edge_place(j)
        },
{
    let into = members(out, r, v, out.len());
    let own = row_in(out, r, v);
    let t = two_way(out, r, v, cap);
    lemma_members_hold(out, r, v, out.len(), w);
    assert(0 <= v * r && v * r + r <= nb * r) by (nonlinear_arith)
        requires
            0 <= v < nb,
    ;
    let mine = exists|j: int| 0 <= j < r && out[v * r + j] == w && #[trigger] edge_place(j);
    let theirs = w < nb && exists|j: int| 0 <= j < r && out[w * r + j] == v && #[trigger] edge_place(j);
    if t.contains(w) {
        let i = choose|i: int| 0 <= i < t.len() && t[i] == w;
        if i < own.len() {
            assert(edge_place(i) && out[v * r + i] == w);
        } else {
            assert(into[i - own.len()] == w);
            assert(into.contains(w));
            let x = choose|x: int| 0 <= x < out.len() && #[trigger] out[x] == v && x / r as int == w;
            let j = x - w * r;
            assert(0 <= j < r && w < nb) by (nonlinear_arith)
                requires
                    w == x / r as int,
                    j == x - w * r,
                    0 <= x < nb * r,
                    r >= 1,
            ;
            assert(edge_place(j) && out[w * r + j] == v);
        }
    }
    if mine {
        let j = choose|j: int| 0 <= j < r && out[v * r + j] == w && #[trigger] edge_place(j);
        assert(t[j] == w);
    }
    if theirs {
        let j = choose|j: int| 0 <= j < r && out[w * r + j] == v && #[trigger] edge_place(j);
        let x = w * r + j;
        assert(0 <= x < nb * r && x / r as int == w) by (nonlinear_arith)
            requires
                x == w * r + j,
                0 <= j < r,
                w < nb,
        {
            vstd::arithmetic::div_mod::lemma_fundamental_div_mod_converse(x, r as int, w as int, j);
        }
        assert(out[x] == v);
        let y = choose|y: int| 0 <= y < into.len() && into[y] == w;
        assert(t[own.len() + y] == w);
    }
}

/// A place in a row of edges.
pub open spec fn edge_place(j: int) -> bool {
    true
}

// ---------------------------------------------------------------- the stretch

proof fn lemma_double_near(n: nat)
    ensures
        0x20_0000_0000_0000 * (double_of(n) - n) <= n,
        0x20_0000_0000_0000 * (n - double_of(n)) <= n,
{
    let u = pow2(spare(n));
    vstd::arithmetic::power2::lemma_pow2_pos(spare(n));
    let q = n / u;
    let r = n % u;
    vstd::arithmetic::div_mod::lemma_fundamental_div_mod(n as int, u as int);
    let h = half_even(n, u);
    assert(double_of(n) == h * u);
    assert(n == q * u + r) by (nonlinear_arith)
        requires
            n == u * q + r,
    ;
    assert((q + 1) * u == q * u + u) by (nonlinear_arith);
    if n < 0x20_0000_0000_0000 {
        vstd::arithmetic::power2::lemma2_to64();
        assert(u == 1);
        assert(r == 0);
        assert(h == q);
    } else {
        lemma_spare_low(n);
        assert(2 * (h * u - n) <= u && 2 * (n - h * u) <= u);
    }
}

/// The comparison under a finite factor `m / 2^e` is that of the products themselves, but for the
/// rounding of a double: it holds where it holds with a last bit to spare, and fails where it fails so.
pub proof fn law_stretch_is_a_product(m: u64, e: i32, d: int, bound: int)
    requires
        e >= 0,
    ensures
        ({
            let f = Factor::Finite { m, e };
            let (p, b) = (m * d, bound * pow2(e as nat));
            let one = 0x20_0000_0000_0000int;
            &&& d >= 0 && p * (one + 1) <= b * one ==> times_at_most(f, d, bound)
            &&& d >= 0 && p * (one - 1) > b * one ==> !times_at_most(f, d, bound)
            &&& d < 0 && p * (one - 1) <= b * one ==> times_at_most(f, d, bound)
            &&& d < 0 && p * (one + 1) > b * one ==> !times_at_most(f, d, bound)
        }),
{
    let size = if d < 0 {
        -d
    } else {
        d
    };
    let p = m * d;
    let b = bound * pow2(e as nat);
    let one = 0x20_0000_0000_0000int;
    assert(m * size >= 0) by (nonlinear_arith)
        requires
            size >= 0,
    ;
    let n = (m * size) as nat;
    assert(m * (-d) == -(m * d)) by (nonlinear_arith);
    lemma_double_near(n);
    let x = double_of(n) as int;
    assert(n * (one + 1) == n * one + n && n * (one - 1) == n * one - n) by (nonlinear_arith);
    assert(p * (one + 1) == p * one + p && p * (one - 1) == p * one - p) by (nonlinear_arith);
}

/// Under an infinite factor only an inner product above zero puts one point before another.
pub proof fn law_infinite_stretch(d: int, bound: int)
    ensures
        times_at_most(Factor::Infinite, d, bound) <==> d < 0,
{
}

/// A factor is the double that its bits spell: sign, exponent and mantissa give the bits back.
pub proof fn law_factor_is_its_double(bits: u64)
    requires
        at_least_one(bits),
    ensures
        match spelled(bits) {
            Factor::Finite { m, e } => 0x10_0000_0000_0000 <= m < 0x20_0000_0000_0000 && (1075 - e) * 0x10_0000_0000_0000 + (m - 0x10_0000_0000_0000) == bits,
            Factor::Infinite => bits == 0x7ff0_0000_0000_0000,
        },
{
}

/// Squared distances are stretched by the square of the factor, rounded to a double.
pub proof fn law_squared_factor_is_a_square(m: u64, e: i32)
    requires
        0x10_0000_0000_0000 <= m < 0x20_0000_0000_0000,
        -971 <= e <= 52,
    ensures
        match squared(Factor::Finite { m, e }) {
            Factor::Finite { m: a, e: b } => exists|s: nat| b == 2 * e - s && 0x20_0000_0000_0000 * (a * #[trigger] pow2(s) - m * m) <= m * m && 0x20_0000_0000_0000 * (m * m - a * pow2(s)) <= m * m,
            Factor::Infinite => 2 * e <= -918,
        },
{
    let n = (m * m) as nat;
    assert(0x100_0000_0000_0000_0000_0000_0000 <= m * m < 0x400_0000_0000_0000_0000_0000_0000) by (nonlinear_arith)
        requires
            0x10_0000_0000_0000 <= m < 0x20_0000_0000_0000,
    ;
    vstd::arithmetic::power2::lemma2_to64_rest();
    let s: nat = if n < 0x200_0000_0000_0000_0000_0000_0000 {
        52
    } else {
        53
    };
    lemma_spare(n, s);
    lemma_double_near(n);
    let u = pow2(s);
    let h = half_even(n, u);
    assert(h <= 0x20_0000_0000_0000) by {
        assert(n / u < 0x20_0000_0000_0000) by (nonlinear_arith)
            requires
                n < 0x20_0000_0000_0000 * u,
                u > 0,
        ;
    }
    assert(h as u64 == h);
    assert(double_of(n) == h * u);
    match squared(Factor::Finite { m, e }) {
        Factor::Finite { m: a, e: b } => {
            assert(a == h && b == 2 * e - s);
            assert(a * pow2(s) == double_of(n));
        },
        Factor::Infinite => {},
    }
}

} // verus!
