//! Which cells a route chooses: at every level the nearest of those it may choose from.

use crate::hier::{children, code_sum, lemma_frontier_below, HierRouter};
use crate::order::{ascending, lemma_ascending, smallest, Ranked};
use crate::pq::Pq;
use crate::router::{ids_of, FlatIvf, Router};
use crate::routes::{lemma_children_distinct, lemma_children_hold, lemma_cut_distinct, lemma_frontier_distinct};
use crate::simd::{l2, lemma_sqdist_bound, row_of, sqdist};
use vstd::prelude::*;

verus! {

/// Cell `a` comes before cell `b`: it is nearer, or as near and of the lower id.
pub open spec fn nearer(far: spec_fn(u32) -> int, a: u32, b: u32) -> bool {
    far(a) < far(b) || (far(a) == far(b) && a < b)
}

/// The choice holds the nearest of the cells that may be chosen, nearest first; all of them, or as many
/// as the cap admits.
pub open spec fn chooses_nearest(may: spec_fn(u32) -> bool, far: spec_fn(u32) -> int, cap: Option<nat>, choice: Seq<u32>) -> bool {
    &&& forall|i: int| 0 <= i < choice.len() ==> may(#[trigger] choice[i])
    &&& forall|i: int, j: int| 0 <= i < j < choice.len() ==> nearer(far, #[trigger] choice[i], #[trigger] choice[j])
    &&& cap matches Some(t) ==> choice.len() <= t
    &&& forall|c: u32| may(c) && !#[trigger] choice.contains(c) ==> cap == Some(choice.len())
    &&& forall|c: u32, i: int| may(c) && !#[trigger] choice.contains(c) && 0 <= i < choice.len() ==> nearer(far, #[trigger] choice[i], c)
}

/// A sorted list of scored ids, cut or not, chooses the nearest.
pub proof fn lemma_chooses(s: Seq<(i32, u32)>, cap: Option<nat>, may: spec_fn(u32) -> bool, far: spec_fn(u32) -> int)
    requires
        ids_of(s).no_duplicates(),
        forall|i: int| 0 <= i < s.len() ==> (#[trigger] s[i]).0 == far(s[i].1),
        forall|i: int| 0 <= i < s.len() ==> may((#[trigger] s[i]).1),
        forall|c: u32| #[trigger] may(c) ==> ids_of(s).contains(c),
    ensures
        chooses_nearest(may, far, cap, ids_of(match cap {
            Some(t) => smallest(s, t),
            None => ascending(s),
        })),
{
    broadcast use vstd::seq_lib::group_to_multiset_ensures;

    lemma_ascending(s);
    lemma_cut_distinct(s, 0);
    let a = ascending(s);
    let r = match cap {
        Some(t) => smallest(s, t),
        None => a,
    };
    let choice = ids_of(r);
    assert forall|i: int| 0 <= i < a.len() implies s.contains(#[trigger] a[i]) by {
        assert(a.contains(a[i]));
        assert(a.to_multiset().contains(a[i]));
        assert(s.to_multiset().contains(a[i]));
    }
    assert forall|i: int| 0 <= i < a.len() implies may((#[trigger] a[i]).1) && a[i].0 == far(a[i].1) by {
        assert(s.contains(a[i]));
        let x = choose|x: int| 0 <= x < s.len() && s[x] == a[i];
        assert(s[x] == a[i]);
    }
    assert forall|i: int, j: int| 0 <= i < j < a.len() implies nearer(far, (#[trigger] a[i]).1, (#[trigger] a[j]).1) by {
        assert(a[i].le(a[j]));
        assert(ids_of(a)[i] != ids_of(a)[j]);
    }
    assert forall|i: int| 0 <= i < choice.len() implies may(#[trigger] choice[i]) by {
        assert(choice[i] == a[i].1);
    }
    assert forall|i: int, j: int| 0 <= i < j < choice.len() implies nearer(far, #[trigger] choice[i], #[trigger] choice[j]) by {
        assert(choice[i] == a[i].1 && choice[j] == a[j].1);
    }
    assert forall|c: u32| may(c) && !#[trigger] choice.contains(c) implies cap == Some(choice.len()) && forall|i: int| 0 <= i < choice.len() ==> nearer(far, #[trigger] choice[i], c) by {
        assert(ids_of(s).contains(c));
        let x = choose|x: int| 0 <= x < s.len() && ids_of(s)[x] == c;
        assert(s.contains(s[x]));
        assert(s.to_multiset().contains(s[x]));
        assert(a.to_multiset().contains(s[x]));
        assert(a.contains(s[x]));
        let y = choose|y: int| 0 <= y < a.len() && a[y] == s[x];
        assert(a[y].1 == c);
        if y < r.len() {
            assert(choice[y] == c);
        }
        assert forall|i: int| 0 <= i < choice.len() implies nearer(far, #[trigger] choice[i], c) by {
            assert(choice[i] == a[i].1);
        }
    }
}

/// Two choices of the nearest are the same.
pub proof fn law_nearest_choice_is_unique(may: spec_fn(u32) -> bool, far: spec_fn(u32) -> int, cap: Option<nat>, a: Seq<u32>, b: Seq<u32>)
    requires
        chooses_nearest(may, far, cap, a),
        chooses_nearest(may, far, cap, b),
    ensures
        a == b,
{
    lemma_same_start(may, far, cap, a, b, a.len());
    lemma_same_start(may, far, cap, b, a, b.len());
    assert(a =~= b);
}

proof fn lemma_same_start(may: spec_fn(u32) -> bool, far: spec_fn(u32) -> int, cap: Option<nat>, a: Seq<u32>, b: Seq<u32>, n: nat)
    requires
        chooses_nearest(may, far, cap, a),
        chooses_nearest(may, far, cap, b),
        n <= a.len(),
    ensures
        n <= b.len(),
        forall|i: int| 0 <= i < n ==> #[trigger] a[i] == b[i],
    decreases n,
{
    if n > 0 {
        lemma_same_start(may, far, cap, a, b, (n - 1) as nat);
        let k = n - 1;
        let c = a[k];
        assert(may(c));
        if b.contains(c) {
            let x = choose|x: int| 0 <= x < b.len() && b[x] == c;
            if x < k {
                assert(nearer(far, a[x], a[k]));
                assert(a[x] == b[x]);
            }
            if x > k {
                let e = b[k];
                assert(nearer(far, b[k], b[x]));
                assert(may(e));
                if a.contains(e) {
                    let y = choose|y: int| 0 <= y < a.len() && a[y] == e;
                    if y < k {
                        assert(a[y] == b[y]);
                        assert(nearer(far, b[y], b[k]));
                    }
                    if y > k {
                        assert(nearer(far, a[k], a[y]));
                    }
                } else {
                    assert(nearer(far, a[k], e));
                }
            }
        } else {
            assert(cap == Some(b.len()));
            assert(b.len() > k);
            let e = b[k];
            assert(nearer(far, b[k], c));
            assert(may(e));
            if a.contains(e) {
                let y = choose|y: int| 0 <= y < a.len() && a[y] == e;
                if y < k {
                    assert(a[y] == b[y]);
                    assert(nearer(far, b[y], b[k]));
                }
                if y > k {
                    assert(nearer(far, a[k], a[y]));
                }
            } else {
                assert(nearer(far, a[k], e));
            }
        }
    }
}

// ---------------------------------------------------------------- the descent

/// The cells `0 .. n`.
pub open spec fn below(n: nat) -> spec_fn(u32) -> bool {
    |c: u32| c < n
}

/// The cells of a list.
pub open spec fn listed(s: Seq<u32>) -> spec_fn(u32) -> bool {
    |c: u32| s.contains(c)
}

/// The cells of level `l` whose parent is in the list `up`.
pub open spec fn under(r: HierRouter, l: int, up: Seq<u32>) -> spec_fn(u32) -> bool {
    |c: u32| exists|p: int| 0 <= p < up.len() && r.child@[l - 1]@[up[p] as int] <= c < r.child@[l - 1]@[#[trigger] up[p] + 1]
}

/// Squared distance of a cell of level `l` over the first `n` coordinates.
pub open spec fn distance(r: HierRouter, qn: Seq<i8>, l: int, n: nat) -> spec_fn(u32) -> int {
    |c: u32| sqdist(qn, row_of(r.cent@[l]@, r.d as nat, c as int), n)
}

/// The same with the bias of a finest cell added.
pub open spec fn biased(r: HierRouter, qn: Seq<i8>, n: nat) -> spec_fn(u32) -> int {
    |c: u32| if r.gbias@.len() == 0 {
        sqdist(qn, row_of(r.cent@[r.levels - 1]@, r.d as nat, c as int), n)
    } else {
        sqdist(qn, row_of(r.cent@[r.levels - 1]@, r.d as nat, c as int), n) + r.gbias@[c as int]
    }
}

/// Sum of the table entries that the codes of a finest cell select.
pub open spec fn tabled(r: HierRouter, t: Seq<i8>, m: nat) -> spec_fn(u32) -> int {
    |c: u32| code_sum(t, r.rcodes@, c * m, m)
}

/// A beam of 0 keeps all.
pub open spec fn beam_cap(b: nat) -> Option<nat> {
    if b == 0 {
        None
    } else {
        Some(b)
    }
}

pub proof fn lemma_code_sum_bound(lut: Seq<i8>, codes: Seq<u8>, base: int, n: nat)
    ensures
        -128 * n <= code_sum(lut, codes, base, n) <= 127 * n,
    decreases n,
{
    if n > 0 {
        lemma_code_sum_bound(lut, codes, base, (n - 1) as nat);
    }
}

/// The expanded cells of the coarsest level are the nearest of all cells of that level: no cell that is
/// left out is nearer than one that is expanded. The beam that was set takes the place of the built one,
/// and leading coordinates stand for all where fewer were asked for. Cells chosen elsewhere are expanded
/// as given.
pub proof fn law_nearest_coarse_cells_are_expanded(r: HierRouter, qn: Seq<i8>, chosen: Seq<u32>)
    requires
        r.wf(),
        qn.len() == r.d,
    ensures
        r.coarse_sel(qn, Some(chosen)) == chosen,
        r.knobs.sdim0 == 0 || r.knobs.sdim0 >= r.d ==> chooses_nearest(
            below(r.cent@[0]@.len() / r.d as nat),
            distance(r, qn, 0, r.d as nat),
            beam_cap(if r.knobs.beam0 > 0 { r.knobs.beam0 as nat } else { r.beam@[0] as nat }),
            r.coarse_sel(qn, None),
        ),
        0 < r.knobs.sdim0 < r.d ==> chooses_nearest(
            below(r.cent@[0]@.len() / r.d as nat),
            distance(r, qn, 0, r.knobs.sdim0 as nat),
            beam_cap(if r.knobs.beam0 > 0 { r.knobs.beam0 as nat } else { r.beam@[0] as nat }),
            r.coarse_sel(qn, None),
        ),
{
    let n = if 0 < r.knobs.sdim0 < r.d {
        r.knobs.sdim0 as nat
    } else {
        r.d as nat
    };
    assert(r.level_ok(0));
    let s = r.coarse_scores(qn);
    let far = distance(r, qn, 0, n);
    let may = below(r.cent@[0]@.len() / r.d as nat);
    assert forall|i: int| 0 <= i < s.len() implies (#[trigger] s[i]).0 == far(s[i].1) && may(s[i].1) by {
        lemma_sqdist_bound(qn, r.centroid(0, i), n);
    }
    assert(ids_of(s).no_duplicates()) by {
        assert forall|i: int, j: int| 0 <= i < s.len() && 0 <= j < s.len() && i != j implies ids_of(s)[i] != ids_of(s)[j] by {
        }
    }
    assert forall|c: u32| #[trigger] may(c) implies ids_of(s).contains(c) by {
        assert(ids_of(s)[c as int] == c);
    }
    lemma_chooses(s, beam_cap(if r.knobs.beam0 > 0 { r.knobs.beam0 as nat } else { r.beam@[0] as nat }), may, far);
}

/// The scored children of the expanded cells, and nothing else.
proof fn lemma_family(r: HierRouter, qn: Seq<i8>, coarse: Option<Seq<u32>>, lut: Option<Seq<i8>>, l: nat, far: spec_fn(u32) -> int)
    requires
        r.wf(),
        r.inputs_ok(qn, coarse, lut),
        coarse matches Some(c) ==> c.no_duplicates(),
        1 <= l < r.levels,
        forall|c: u32| c < r.count(l as int) ==> #[trigger] far(c) == r.level_score(qn, lut, l as int, c as int),
    ensures
        ({
            let up = r.frontier(qn, coarse, lut, (l - 1) as nat);
            let s = r.scored_level(qn, lut, l as int, children(r.child@[l - 1]@, up, up.len()));
            let may = under(r, l as int, up);
            &&& ids_of(s).no_duplicates()
            &&& forall|i: int| 0 <= i < s.len() ==> (#[trigger] s[i]).0 == far(s[i].1)
            &&& forall|i: int| 0 <= i < s.len() ==> may((#[trigger] s[i]).1)
            &&& forall|i: int| 0 <= i < s.len() ==> (#[trigger] s[i]).1 < r.count(l as int)
            &&& forall|c: u32| #[trigger] may(c) ==> ids_of(s).contains(c)
        }),
{
    let k = (l - 1) as nat;
    let up = r.frontier(qn, coarse, lut, k);
    let child = r.child@[l - 1]@;
    let ids = children(child, up, up.len());
    let s = r.scored_level(qn, lut, l as int, ids);
    let may = under(r, l as int, up);
    lemma_frontier_distinct(r, qn, coarse, lut, k);
    lemma_frontier_below(r, qn, coarse, lut, k);
    lemma_children_distinct(r, k as int, up, up.len());
    assert(ids_of(s) =~= ids);
    assert(r.tree_ok(k as int));
    assert(r.level_ok(l as int));
    assert forall|i: int| 0 <= i < s.len() implies (#[trigger] s[i]).0 == far(s[i].1) && may(s[i].1) && s[i].1 < r.count(l as int) by {
        let c = ids[i];
        let p = choose|p: int| 0 <= p < up.len() && child[up[p] as int] <= ids[i] < child[#[trigger] up[p] + 1];
        assert(up[p] < r.count(k as int));
        assert(child[up[p] + 1] <= r.count(l as int));
        assert(far(c) == r.level_score(qn, lut, l as int, c as int));
        lemma_score_fits(r, qn, lut, l as int, c);
    }
    assert forall|c: u32| #[trigger] may(c) implies ids_of(s).contains(c) by {
        let p = choose|p: int| 0 <= p < up.len() && child[up[p] as int] <= c < child[#[trigger] up[p] + 1];
        lemma_children_hold(child, up, up.len(), p, c);
    }
}

proof fn lemma_score_fits(r: HierRouter, qn: Seq<i8>, lut: Option<Seq<i8>>, l: int, c: u32)
    requires
        r.wf(),
        r.inputs_ok(qn, None, lut),
        1 <= l < r.levels,
        c < r.count(l),
    ensures
        i32::MIN <= r.level_score(qn, lut, l, c as int) <= i32::MAX,
{
    lemma_sqdist_bound(qn, r.centroid(l, c as int), r.d as nat);
    if l == r.levels - 1 {
        match lut {
            Some(t) => {
                lemma_code_sum_bound(t, r.rcodes@, c * r.adc_m(), r.adc_m());
            },
            None => {
                let n = if 0 < r.knobs.sdim < r.d {
                    r.knobs.sdim as nat
                } else {
                    r.d as nat
                };
                lemma_sqdist_bound(qn, r.centroid(l, c as int), n);
                if r.gbias@.len() > 0 {
                    assert(65025 * r.d + r.gbias@[c as int] <= i32::MAX);
                }
            },
        }
    }
}

/// The expanded cells of a middle level are the nearest of the children of the expanded cells above.
pub proof fn law_nearest_children_are_expanded(r: HierRouter, qn: Seq<i8>, coarse: Option<Seq<u32>>, lut: Option<Seq<i8>>, l: nat)
    requires
        r.wf(),
        r.inputs_ok(qn, coarse, lut),
        coarse matches Some(c) ==> c.no_duplicates(),
        1 <= l < r.levels - 1,
    ensures
        chooses_nearest(
            under(r, l as int, r.frontier(qn, coarse, lut, (l - 1) as nat)),
            distance(r, qn, l as int, r.d as nat),
            beam_cap(r.beam@[l as int] as nat),
            r.frontier(qn, coarse, lut, l),
        ),
{
    let up = r.frontier(qn, coarse, lut, (l - 1) as nat);
    let s = r.scored_level(qn, lut, l as int, children(r.child@[l - 1]@, up, up.len()));
    lemma_family(r, qn, coarse, lut, l, distance(r, qn, l as int, r.d as nat));
    lemma_chooses(s, beam_cap(r.beam@[l as int] as nat), under(r, l as int, up), distance(r, qn, l as int, r.d as nat));
}

/// The descent begins with the expanded cells of the coarsest level.
pub proof fn law_descent_begins_at_the_top(r: HierRouter, qn: Seq<i8>, coarse: Option<Seq<u32>>, lut: Option<Seq<i8>>)
    ensures
        r.frontier(qn, coarse, lut, 0) == r.coarse_sel(qn, coarse),
{
}

/// A descent without a table gathers the children of the last expanded cells, each once, with its
/// distance and its bias; it probes the nearest of them.
pub proof fn law_descent_gathers_the_children(r: HierRouter, qn: Seq<i8>, coarse: Option<Seq<u32>>, k: nat)
    requires
        r.wf(),
        r.inputs_ok(qn, coarse, None),
        coarse matches Some(c) ==> c.no_duplicates(),
    ensures
        ({
            let g = r.gathered(qn, coarse, None);
            let may = under(r, r.levels - 1, r.frontier(qn, coarse, None, (r.levels - 2) as nat));
            let far = biased(r, qn, if 0 < r.knobs.sdim < r.d { r.knobs.sdim as nat } else { r.d as nat });
            &&& ids_of(g).no_duplicates()
            &&& forall|c: u32| #[trigger] ids_of(g).contains(c) <==> may(c)
            &&& forall|i: int| 0 <= i < g.len() ==> (#[trigger] g[i]).0 == far(g[i].1)
            &&& chooses_nearest(may, far, Some(k), r.routed(qn, coarse, None, k))
        }),
{
    let g = r.gathered(qn, coarse, None);
    let may = under(r, r.levels - 1, r.frontier(qn, coarse, None, (r.levels - 2) as nat));
    let far = biased(r, qn, if 0 < r.knobs.sdim < r.d { r.knobs.sdim as nat } else { r.d as nat });
    lemma_family(r, qn, coarse, None, (r.levels - 1) as nat, far);
    assert forall|c: u32| #[trigger] ids_of(g).contains(c) implies may(c) by {
        let x = choose|x: int| 0 <= x < g.len() && ids_of(g)[x] == c;
        assert(may(g[x].1));
    }
    lemma_chooses(g, Some(k), may, far);
}

/// A descent with a table scores the finest cells from their codes. Where some are to be rescored, those
/// of the lowest sums are gathered with their distances; else all children are gathered with their sums.
/// It probes the best of what it gathered.
pub proof fn law_coded_descent_rescores_the_best(r: HierRouter, qn: Seq<i8>, coarse: Option<Seq<u32>>, t: Seq<i8>, pq: Pq, k: nat)
    requires
        r.wf(),
        r.inputs_ok(qn, coarse, Some(t)),
        coarse matches Some(c) ==> c.no_duplicates(),
        r.radc == Some(pq),
    ensures
        ({
            let g = r.gathered(qn, coarse, Some(t));
            let may = under(r, r.levels - 1, r.frontier(qn, coarse, Some(t), (r.levels - 2) as nat));
            let sums = tabled(r, t, pq.m as nat);
            let far = distance(r, qn, r.levels - 1, r.d as nat);
            &&& r.knobs.adc_keep == 0 ==> {
                &&& ids_of(g).no_duplicates()
                &&& forall|c: u32| #[trigger] ids_of(g).contains(c) <==> may(c)
                &&& forall|i: int| 0 <= i < g.len() ==> (#[trigger] g[i]).0 == sums(g[i].1)
                &&& chooses_nearest(may, sums, Some(k), r.routed(qn, coarse, Some(t), k))
            }
            &&& r.knobs.adc_keep > 0 ==> {
                &&& chooses_nearest(may, sums, Some(r.knobs.adc_keep as nat), ids_of(g))
                &&& forall|i: int| 0 <= i < g.len() ==> (#[trigger] g[i]).0 == far(g[i].1)
                &&& chooses_nearest(listed(ids_of(g)), far, Some(k), r.routed(qn, coarse, Some(t), k))
            }
        }),
{
    let l = (r.levels - 1) as nat;
    let lut = Some(t);
    let g = r.gathered(qn, coarse, lut);
    let up = r.frontier(qn, coarse, lut, (r.levels - 2) as nat);
    let may = under(r, r.levels - 1, up);
    let sums = tabled(r, t, pq.m as nat);
    let far = distance(r, qn, r.levels - 1, r.d as nat);
    let s = r.scored_level(qn, lut, l as int, children(r.child@[l - 1]@, up, up.len()));
    lemma_family(r, qn, coarse, lut, l, sums);
    if r.knobs.adc_keep == 0 {
        assert(g == s);
        assert forall|c: u32| #[trigger] ids_of(g).contains(c) implies may(c) by {
            let x = choose|x: int| 0 <= x < g.len() && ids_of(g)[x] == c;
            assert(may(g[x].1));
        }
        lemma_chooses(g, Some(k), may, sums);
    } else {
        let keep = r.knobs.adc_keep as nat;
        lemma_chooses(s, Some(keep), may, sums);
        lemma_cut_distinct(s, keep);
        assert(ids_of(g) =~= ids_of(smallest(s, keep)));
        assert forall|i: int| 0 <= i < g.len() implies (#[trigger] g[i]).0 == far(g[i].1) && listed(ids_of(g))(g[i].1) by {
            lemma_sqdist_bound(qn, r.centroid(r.levels - 1, g[i].1 as int), r.d as nat);
            assert(ids_of(g)[i] == g[i].1);
        }
        lemma_chooses(g, Some(k), listed(ids_of(g)), far);
    }
}

/// With two levels and a beam of one, the cells that are gathered are the children of the coarse cell
/// nearest to the vector.
pub proof fn law_beam_of_one_follows_the_nearest(r: HierRouter, qn: Seq<i8>) -> (x: int)
    requires
        r.wf(),
        qn.len() == r.d,
        r.levels == 2,
        r.knobs.sdim0 == 0,
        r.knobs.beam0 == 1 || (r.knobs.beam0 == 0 && r.beam@[0] == 1),
        r.cent@[0]@.len() >= r.d,
    ensures
        0 <= x < r.cent@[0]@.len() / r.d as nat,
        forall|y: int| 0 <= y < r.cent@[0]@.len() / r.d as nat ==> l2(qn, row_of(r.cent@[0]@, r.d as nat, x)) <= #[trigger] l2(qn, row_of(r.cent@[0]@, r.d as nat, y)),
        forall|c: u32| #[trigger] ids_of(r.gathered(qn, None, None)).contains(c) <==> r.child@[0]@[x] <= c < r.child@[0]@[x + 1],
{
    let n = r.cent@[0]@.len() / r.d as nat;
    let sel = r.coarse_sel(qn, None);
    let far = distance(r, qn, 0, r.d as nat);
    assert(n >= 1) by {
        vstd::arithmetic::div_mod::lemma_div_is_ordered(r.d as int, r.cent@[0]@.len() as int, r.d as int);
        vstd::arithmetic::div_mod::lemma_div_by_self(r.d as int);
    }
    assert(r.level_ok(0));
    law_nearest_coarse_cells_are_expanded(r, qn, Seq::empty());
    law_descent_gathers_the_children(r, qn, None, 0);
    let may = below(n);
    if !sel.contains(0) {
        assert(may(0u32));
    }
    assert(sel.len() == 1);
    let x = sel[0] as int;
    assert(may(sel[0]));
    assert forall|y: int| 0 <= y < n implies l2(qn, row_of(r.cent@[0]@, r.d as nat, x)) <= #[trigger] l2(qn, row_of(r.cent@[0]@, r.d as nat, y)) by {
        let c = y as u32;
        assert(may(c));
        if !sel.contains(c) {
            assert(nearer(far, sel[0], c));
        }
    }
    let up = r.frontier(qn, None, None, 0);
    assert(up == sel);
    assert forall|c: u32| #[trigger] ids_of(r.gathered(qn, None, None)).contains(c) <==> r.child@[0]@[x] <= c < r.child@[0]@[x + 1] by {
        let f = under(r, 1, up);
        assert(ids_of(r.gathered(qn, None, None)).contains(c) <==> f(c));
        if r.child@[0]@[x] <= c < r.child@[0]@[x + 1] {
            assert(r.child@[0]@[up[0] as int] <= c < r.child@[0]@[up[0] + 1]);
        }
    }
    x
}

/// How many children the first `n` cells of a list have.
pub open spec fn children_before(child: Seq<u32>, up: Seq<u32>, n: nat) -> int
    decreases n,
{
    if n == 0 {
        0
    } else {
        children_before(child, up, (n - 1) as nat) + (child[up[n - 1] + 1] - child[up[n - 1] as int])
    }
}

proof fn lemma_children_order(child: Seq<u32>, up: Seq<u32>, n: nat, p: int, j: int)
    requires
        0 <= p < n <= up.len(),
        forall|x: int| 0 <= x < up.len() ==> child[#[trigger] up[x] as int] <= child[up[x] + 1],
        0 <= j < child[up[p] + 1] - child[up[p] as int],
    ensures
        0 <= children_before(child, up, p as nat),
        children(child, up, n).len() == children_before(child, up, n),
        children_before(child, up, p as nat) + j < children(child, up, n).len(),
        children(child, up, n)[children_before(child, up, p as nat) + j] == child[up[p] as int] + j,
    decreases n,
{
    let m = (n - 1) as nat;
    lemma_children_len(child, up, n);
    lemma_children_len(child, up, m);
    lemma_children_len(child, up, p as nat);
    let a = children(child, up, m);
    if p < m {
        lemma_children_order(child, up, m, p, j);
    } else {
        assert(child[up[p] as int] <= child[up[p] + 1]);
    }
}

proof fn lemma_children_len(child: Seq<u32>, up: Seq<u32>, n: nat)
    requires
        n <= up.len(),
        forall|x: int| 0 <= x < up.len() ==> child[#[trigger] up[x] as int] <= child[up[x] + 1],
    ensures
        children(child, up, n).len() == children_before(child, up, n),
    decreases n,
{
    if n > 0 {
        lemma_children_len(child, up, (n - 1) as nat);
        assert(child[up[n - 1] as int] <= child[up[n - 1] + 1]);
    }
}

/// Cells that are not rescored are gathered in order: child `j` of expanded cell `p` stands behind the
/// children of the expanded cells before `p`.
pub proof fn law_children_are_gathered_in_order(r: HierRouter, qn: Seq<i8>, coarse: Option<Seq<u32>>, lut: Option<Seq<i8>>, p: int, j: int)
    requires
        r.wf(),
        r.inputs_ok(qn, coarse, lut),
        lut is None || r.knobs.adc_keep == 0,
        0 <= p < r.frontier(qn, coarse, lut, (r.levels - 2) as nat).len(),
        ({
            let c = r.frontier(qn, coarse, lut, (r.levels - 2) as nat)[p];
            0 <= j < r.child@[r.levels - 2]@[c + 1] - r.child@[r.levels - 2]@[c as int]
        }),
    ensures
        ({
            let up = r.frontier(qn, coarse, lut, (r.levels - 2) as nat);
            let child = r.child@[r.levels - 2]@;
            let g = r.gathered(qn, coarse, lut);
            let at = children_before(child, up, p as nat) + j;
            &&& g.len() == children_before(child, up, up.len())
            &&& 0 <= at < g.len()
            &&& g[at].1 == child[up[p] as int] + j
        }),
{
    let l = (r.levels - 2) as nat;
    let up = r.frontier(qn, coarse, lut, l);
    let child = r.child@[l as int]@;
    lemma_frontier_below(r, qn, coarse, lut, l);
    assert(r.tree_ok(l as int));
    assert forall|x: int| 0 <= x < up.len() implies child[#[trigger] up[x] as int] <= child[up[x] + 1] by {
        assert(up[x] < r.count(l as int));
    }
    lemma_children_order(child, up, up.len(), p, j);
}

// ---------------------------------------------------------------- storing and probing

/// A query probes what a descent of its own probes, and a point is stored in the cells that it would
/// probe; cell 0 fills up what is missing.
pub proof fn law_points_are_stored_where_they_probe(r: HierRouter, q: Seq<i8>, qn: Seq<i8>, n: nat)
    requires
        r.wf(),
        qn.len() == r.d,
    ensures
        r.probed(q, qn, n) == r.routed(qn, None, None, n),
        r.assigned(q, qn, n).len() == n,
        r.probed(q, qn, n).is_prefix_of(r.assigned(q, qn, n)),
        forall|i: int| r.probed(q, qn, n).len() <= i < n ==> #[trigger] r.assigned(q, qn, n)[i] == 0,
{
    law_descent_gathers_the_children(r, qn, None, n);
    assert(r.probed(q, qn, n) =~= r.assigned(q, qn, n).take(r.probed(q, qn, n).len() as int));
}

/// Flat routing probes the nearest pivots of all, and stores a point in the nearest; cell 0 fills up what
/// is missing.
pub proof fn law_flat_routing_takes_the_nearest(f: FlatIvf, q: Seq<i8>, qn: Seq<i8>, n: nat)
    requires
        f.wf(),
        qn.len() == f.d,
    ensures
        chooses_nearest(below(f.c as nat), |c: u32| l2(qn, row_of(f.pivots@, f.d as nat, c as int)), Some(n), f.probed(q, qn, n)),
        f.assigned(q, qn, n).len() == n,
        f.probed(q, qn, n).is_prefix_of(f.assigned(q, qn, n)),
        forall|i: int| f.probed(q, qn, n).len() <= i < n ==> #[trigger] f.assigned(q, qn, n)[i] == 0,
{
    let s = f.scores(qn);
    let far = |c: u32| l2(qn, row_of(f.pivots@, f.d as nat, c as int));
    let may = below(f.c as nat);
    assert forall|i: int| 0 <= i < s.len() implies (#[trigger] s[i]).0 == far(s[i].1) && may(s[i].1) by {
        lemma_sqdist_bound(qn, row_of(f.pivots@, f.d as nat, i), f.d as nat);
    }
    assert forall|i: int, j: int| 0 <= i < s.len() && 0 <= j < s.len() && i != j implies ids_of(s)[i] != ids_of(s)[j] by {
    }
    assert forall|c: u32| #[trigger] may(c) implies ids_of(s).contains(c) by {
        assert(ids_of(s)[c as int] == c);
    }
    lemma_chooses(s, Some(n), may, far);
    assert(f.probed(q, qn, n) =~= f.assigned(q, qn, n).take(f.probed(q, qn, n).len() as int));
}

} // verus!
