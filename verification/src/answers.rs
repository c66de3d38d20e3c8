//! What the rankings answer: the best of what they rank, in order, each once.

use crate::chosen::{below, chooses_nearest, law_flat_routing_takes_the_nearest, lemma_chooses, listed, nearer};
use crate::counted::law_saturating_sums_fit;
use crate::entry::{directory_row, entry_scores};
use crate::floatrank::scored_points;
use crate::ibin::I8Bin;
use crate::ivf::{assignment, block_lanes, exact_pool, lanes, Ivf, PqIndex};
use crate::kept::{keeps_lowest, lemma_gathered_from, lemma_keeps};
use crate::layout::block_at;
use crate::order::{ascending, lemma_ascending, lemma_smallest, smallest, sorted, Ranked};
use crate::pq::adc_saturating;
use crate::refine::{keyed, order_key};
use crate::rerank::{distinct_ids, NO_POINT};
use crate::router::{ids_of, FlatIvf, Router};
use crate::scan::gathered;
use crate::simd::{dot, l2, lemma_inner_bound, lemma_row_in_range, lemma_sqdist_bound, row_of, DOT_DIM, L2_DIM};
use crate::spill::{spilled, with_losses};
use vstd::prelude::*;

verus! {

/// Distinct ids off an ascending list are the nearest.
proof fn lemma_distinct_nearest(a: Seq<(i32, u32)>, far: spec_fn(u32) -> int, k: nat, n: nat)
    requires
        n <= a.len(),
        sorted(a),
        forall|i: int| 0 <= i < a.len() ==> (#[trigger] a[i]).0 == far(a[i].1),
    ensures
        ({
            let r = distinct_ids(a, k, n);
            &&& r.len() <= k
            &&& forall|i: int, j: int| 0 <= i < j < r.len() ==> nearer(far, #[trigger] r[i], #[trigger] r[j])
            &&& forall|i: int| 0 <= i < r.len() ==> n > 0 && (r[i] == a[n - 1].1 || nearer(far, #[trigger] r[i], a[n - 1].1))
            &&& forall|i: int| 0 <= i < r.len() ==> exists|j: int| 0 <= j < n && (#[trigger] a[j]).1 == #[trigger] r[i]
            &&& forall|j: int| 0 <= j < n && !r.contains((#[trigger] a[j]).1) ==> r.len() == k && forall|i: int| 0 <= i < r.len() ==> nearer(far, #[trigger] r[i], a[j].1)
        }),
    decreases n,
{
    if n > 0 {
        let m = (n - 1) as nat;
        lemma_distinct_nearest(a, far, k, m);
        let p = distinct_ids(a, k, m);
        let r = distinct_ids(a, k, n);
        let last = a[m as int];
        assert forall|i: int| 0 <= i < p.len() implies p[i] == last.1 || nearer(far, #[trigger] p[i], last.1) by {
            assert(a[m - 1].le(last));
            assert(p[i] == a[m - 1].1 || nearer(far, p[i], a[m - 1].1));
        }
        assert forall|i: int| 0 <= i < r.len() implies r[i] == last.1 || nearer(far, #[trigger] r[i], last.1) by {
            if i < p.len() {
                assert(r[i] == p[i]);
            }
        }
        assert forall|i: int, j: int| 0 <= i < j < r.len() implies nearer(far, #[trigger] r[i], #[trigger] r[j]) by {
            assert(r[i] == p[i]);
            if j < p.len() {
                assert(r[j] == p[j]);
            } else {
                assert(p.contains(p[i]));
            }
        }
        assert forall|i: int| 0 <= i < r.len() implies exists|j: int| 0 <= j < n && (#[trigger] a[j]).1 == #[trigger] r[i] by {
            if i < p.len() {
                assert(r[i] == p[i]);
                let j = choose|j: int| 0 <= j < m && (#[trigger] a[j]).1 == p[i];
                assert(a[j].1 == r[i]);
            } else {
                assert(a[m as int].1 == r[i]);
            }
        }
        assert forall|j: int| 0 <= j < n && !r.contains((#[trigger] a[j]).1) implies r.len() == k && forall|i: int| 0 <= i < r.len() ==> nearer(far, #[trigger] r[i], a[j].1) by {
            if j < m {
                if p.contains(a[j].1) {
                    let x = choose|x: int| 0 <= x < p.len() && p[x] == a[j].1;
                    assert(r[x] == a[j].1);
                }
                assert(r == p);
            } else {
                if r.len() > p.len() {
                    assert(r[p.len() as int] == last.1);
                }
                assert(r == p);
                if p.contains(last.1) {
                    let x = choose|x: int| 0 <= x < p.len() && p[x] == last.1;
                    assert(r[x] == last.1);
                }
                assert forall|i: int| 0 <= i < r.len() implies nearer(far, #[trigger] r[i], a[j].1) by {
                    assert(r.contains(r[i]));
                }
            }
        }
    }
}

/// A list ranked by score, each id once, chooses the nearest ids.
pub proof fn law_ranking_chooses_the_lowest(s: Seq<(i32, u32)>, far: spec_fn(u32) -> int, k: nat)
    requires
        forall|i: int| 0 <= i < s.len() ==> (#[trigger] s[i]).0 == far(s[i].1),
    ensures
        chooses_nearest(listed(ids_of(s)), far, Some(k), distinct_ids(ascending(s), k, s.len())),
{
    broadcast use vstd::seq_lib::group_to_multiset_ensures;

    let a = ascending(s);
    lemma_ascending(s);
    let r = distinct_ids(a, k, s.len());
    let may = listed(ids_of(s));
    assert forall|i: int| 0 <= i < a.len() implies s.contains(#[trigger] a[i]) by {
        assert(a.contains(a[i]));
        assert(a.to_multiset().contains(a[i]));
        assert(s.to_multiset().contains(a[i]));
    }
    assert forall|i: int| 0 <= i < a.len() implies (#[trigger] a[i]).0 == far(a[i].1) && may(a[i].1) by {
        assert(s.contains(a[i]));
        let x = choose|x: int| 0 <= x < s.len() && s[x] == a[i];
        assert(s[x] == a[i]);
        assert(ids_of(s)[x] == a[i].1);
    }
    lemma_distinct_nearest(a, far, k, s.len());
    assert forall|i: int| 0 <= i < r.len() implies may(#[trigger] r[i]) by {
        let j = choose|j: int| 0 <= j < s.len() && (#[trigger] a[j]).1 == r[i];
        assert(may(a[j].1));
    }
    assert forall|c: u32| may(c) && !#[trigger] r.contains(c) implies r.len() == k && forall|i: int| 0 <= i < r.len() ==> nearer(far, #[trigger] r[i], c) by {
        let x = choose|x: int| 0 <= x < s.len() && ids_of(s)[x] == c;
        assert(s.contains(s[x]));
        assert(s.to_multiset().contains(s[x]));
        assert(a.to_multiset().contains(s[x]));
        assert(a.contains(s[x]));
        let y = choose|y: int| 0 <= y < a.len() && a[y] == s[x];
        assert(a[y].1 == c);
    }
}

// ---------------------------------------------------------------- inverted files

/// Squared distance of a point.
pub open spec fn point_distance(data: Seq<i8>, d: nat, q: Seq<i8>) -> spec_fn(u32) -> int {
    |o: u32| l2(q, row_of(data, d, o as int))
}

/// A probed cell lists the point.
pub open spec fn in_cells(ivf: Ivf, cells: Seq<u32>) -> spec_fn(u32) -> bool {
    |o: u32| exists|i: int| 0 <= i < cells.len() && ivf.cells.of(#[trigger] cells[i] as int).contains(o)
}

proof fn lemma_exact_pool(data: Seq<i8>, d: nat, q: Seq<i8>, ids: Seq<u32>, e: (i32, u32))
    requires
        q.len() <= L2_DIM,
    ensures
        exact_pool(data, d, q, ids).contains(e) <==> ids.contains(e.1) && e.0 == l2(q, row_of(data, d, e.1 as int)),
{
    let s = exact_pool(data, d, q, ids);
    lemma_sqdist_bound(q, row_of(data, d, e.1 as int), q.len());
    if s.contains(e) {
        let i = choose|i: int| 0 <= i < s.len() && s[i] == e;
        assert(ids[i] == e.1);
    }
    if ids.contains(e.1) && e.0 == l2(q, row_of(data, d, e.1 as int)) {
        let i = choose|i: int| 0 <= i < ids.len() && ids[i] == e.1;
        assert(s[i] == e);
    }
}

/// A search of an inverted file answers the `k` nearest of all points in the cells that it probes.
pub proof fn law_inverted_file_answers_the_nearest(ivf: Ivf, data: Seq<i8>, q: Seq<i8>, qn: Seq<i8>, p: nat, k: nat)
    requires
        q.len() <= L2_DIM,
    ensures
        chooses_nearest(in_cells(ivf, ivf.router.probed(q, qn, p)), point_distance(data, ivf.router.d as nat, q), Some(k), ivf.found(data, q, qn, p, k)),
{
    let d = ivf.router.d as nat;
    let cells = ivf.router.probed(q, qn, p);
    let f = ivf.cell_pool(data, q);
    let s = gathered(f, cells);
    let far = point_distance(data, d, q);
    let may = in_cells(ivf, cells);
    assert forall|i: int| 0 <= i < s.len() implies (#[trigger] s[i]).0 == far(s[i].1) && may(s[i].1) by {
        assert(s.contains(s[i]));
        lemma_gathered_from(f, cells, s[i]);
        let x = choose|x: int| 0 <= x < cells.len() && f(#[trigger] cells[x]).contains(s[i]);
        lemma_exact_pool(data, d, q, ivf.cells.of(cells[x] as int), s[i]);
    }
    assert forall|o: u32| #[trigger] may(o) implies ids_of(s).contains(o) by {
        let x = choose|x: int| 0 <= x < cells.len() && ivf.cells.of(#[trigger] cells[x] as int).contains(o);
        lemma_sqdist_bound(q, row_of(data, d, o as int), q.len());
        let e = (far(o) as i32, o);
        lemma_exact_pool(data, d, q, ivf.cells.of(cells[x] as int), e);
        assert(f(cells[x]).contains(e));
        lemma_gathered_from(f, cells, e);
        let i = choose|i: int| 0 <= i < s.len() && s[i] == e;
        assert(ids_of(s)[i] == o);
    }
    law_ranking_chooses_the_lowest(s, far, k);
    let r = ivf.found(data, q, qn, p, k);
    assert(chooses_nearest(listed(ids_of(s)), far, Some(k), r));
    assert forall|o: u32| listed(ids_of(s))(o) implies #[trigger] may(o) by {
        let i = choose|i: int| 0 <= i < s.len() && ids_of(s)[i] == o;
        assert(may(s[i].1));
    }
    assert forall|i: int| 0 <= i < r.len() implies may(#[trigger] r[i]) by {
        assert(listed(ids_of(s))(r[i]));
    }
    assert forall|c: u32| may(c) && !#[trigger] r.contains(c) implies Some(k) == Some(r.len()) by {
        assert(listed(ids_of(s))(c));
    }
    assert forall|c: u32, i: int| may(c) && !#[trigger] r.contains(c) && 0 <= i < r.len() implies nearer(far, #[trigger] r[i], c) by {
        assert(listed(ids_of(s))(c));
    }
}

/// A search of a coded inverted file answers the `k` nearest of the points that it keeps: those of the
/// `t` lowest sums over their codes, or all where `t` is 0.
pub proof fn law_coded_file_answers_the_nearest_kept(idx: PqIndex, lut: Seq<i8>, data: Seq<i8>, d: nat, q: Seq<i8>, cells: Seq<u32>, t: nat, k: nat) -> (kept: Seq<(i32, u32)>)
    requires
        q.len() <= L2_DIM,
    ensures
        t > 0 ==> keeps_lowest(gathered(idx.cell_lanes(lut), cells), t, kept),
        t == 0 ==> kept == gathered(idx.cell_lanes(lut), cells),
        chooses_nearest(listed(ids_of(kept)), point_distance(data, d, q), Some(k), idx.found(lut, data, d, q, cells, t, k)),
{
    let all = gathered(idx.cell_lanes(lut), cells);
    lemma_keeps(all, t);
    let kept = if t == 0 {
        all
    } else {
        smallest(all, t)
    };
    let s = exact_pool(data, d, q, ids_of(kept));
    let far = point_distance(data, d, q);
    assert forall|i: int| 0 <= i < s.len() implies (#[trigger] s[i]).0 == far(s[i].1) by {
        lemma_sqdist_bound(q, row_of(data, d, s[i].1 as int), q.len());
    }
    assert(ids_of(s) =~= ids_of(kept));
    law_ranking_chooses_the_lowest(s, far, k);
    kept
}

/// The score of a slot of a coded inverted file: the table sum over the codes in its lane of its block.
pub open spec fn slot_sum(idx: PqIndex, lut: Seq<i8>, slot: int) -> int {
    adc_saturating(lut, block_at(idx.blocks@, idx.bb as nat, slot / 16), (slot % 16) as nat, (idx.m / 2) as nat)
}

proof fn lemma_lanes(idx: PqIndex, lut: Seq<i8>, b: int, n: nat, e: (i32, u32))
    requires
        n <= 16,
    ensures
        lanes(idx, lut, b, n).contains(e) <==> e.1 != NO_POINT && exists|s: int| 16 * b <= s < 16 * b + n && #[trigger] idx.slot_orig@[s] == e.1 && e.0 == slot_sum(idx, lut, s),
    decreases n,
{
    let all = lanes(idx, lut, b, n);
    if n > 0 {
        let m = (n - 1) as nat;
        lemma_lanes(idx, lut, b, m, e);
        let prev = lanes(idx, lut, b, m);
        let at = 16 * b + m;
        let id = idx.slot_orig@[at];
        assert(at / 16 == b && at % 16 == m);
        let v = slot_sum(idx, lut, at);
        law_saturating_sums_fit(lut, block_at(idx.blocks@, idx.bb as nat, b), m, (idx.m / 2) as nat);
        if prev.contains(e) {
            let x = choose|x: int| 0 <= x < prev.len() && prev[x] == e;
            assert(all[x] == e);
        }
        if id != NO_POINT {
            assert(idx.blocks@.subrange(b * idx.bb, b * idx.bb + idx.bb) == block_at(idx.blocks@, idx.bb as nat, b));
            assert(all[prev.len() as int] == (v as i32, id));
            if all.contains(e) {
                let x = choose|x: int| 0 <= x < all.len() && all[x] == e;
                if x < prev.len() {
                    assert(prev[x] == e);
                } else {
                    assert(idx.slot_orig@[at] == e.1);
                }
            }
        }
    }
}

proof fn lemma_block_lanes(idx: PqIndex, lut: Seq<i8>, from: int, to: int, e: (i32, u32))
    requires
        from <= to,
    ensures
        block_lanes(idx, lut, from, to).contains(e) <==> e.1 != NO_POINT && exists|s: int| 16 * from <= s < 16 * to && #[trigger] idx.slot_orig@[s] == e.1 && e.0 == slot_sum(idx, lut, s),
    decreases to - from,
{
    if from < to {
        lemma_block_lanes(idx, lut, from, to - 1, e);
        lemma_lanes(idx, lut, to - 1, 16, e);
        let a = block_lanes(idx, lut, from, to - 1);
        let b = lanes(idx, lut, to - 1, 16);
        let all = block_lanes(idx, lut, from, to);
        if a.contains(e) {
            let x = choose|x: int| 0 <= x < a.len() && a[x] == e;
            assert(all[x] == e);
        }
        if b.contains(e) {
            let x = choose|x: int| 0 <= x < b.len() && b[x] == e;
            assert(all[a.len() + x] == e);
        }
        if all.contains(e) {
            let x = choose|x: int| 0 <= x < all.len() && all[x] == e;
            if x < a.len() {
                assert(a[x] == e);
            } else {
                assert(b[x - a.len()] == e);
            }
        }
    }
}

/// The candidates of a coded inverted file are the points in the slots of the probed cells, each with the
/// score of its slot.
pub proof fn law_coded_candidates_are_the_held_slots(idx: PqIndex, lut: Seq<i8>, cells: Seq<u32>, nc: nat, nb: nat, e: (i32, u32))
    requires
        idx.wf(nc, nb),
        forall|i: int| 0 <= i < cells.len() ==> #[trigger] cells[i] < nc,
    ensures
        gathered(idx.cell_lanes(lut), cells).contains(e) <==> e.1 != NO_POINT && exists|i: int, s: int|
            0 <= i < cells.len() && 16 * idx.cell_bstart@[#[trigger] cells[i] as int] <= s < 16 * idx.cell_bstart@[cells[i] + 1] && #[trigger] idx.slot_orig@[s] == e.1 && e.0 == slot_sum(idx, lut, s),
{
    let f = idx.cell_lanes(lut);
    lemma_gathered_from(f, cells, e);
    assert forall|i: int| 0 <= i < cells.len() implies (f(#[trigger] cells[i]).contains(e) <==> e.1 != NO_POINT && exists|s: int|
        16 * idx.cell_bstart@[cells[i] as int] <= s < 16 * idx.cell_bstart@[cells[i] + 1] && #[trigger] idx.slot_orig@[s] == e.1 && e.0 == slot_sum(idx, lut, s)) by {
        let c = cells[i] as int;
        assert(idx.cell_bstart@[c] <= idx.cell_bstart@[c + 1]);
        lemma_block_lanes(idx, lut, idx.cell_bstart@[c] as int, idx.cell_bstart@[c + 1] as int, e);
    }
    if exists|i: int| 0 <= i < cells.len() && f(#[trigger] cells[i]).contains(e) {
        let i = choose|i: int| 0 <= i < cells.len() && f(#[trigger] cells[i]).contains(e);
        let s = choose|s: int| 16 * idx.cell_bstart@[cells[i] as int] <= s < 16 * idx.cell_bstart@[cells[i] + 1] && #[trigger] idx.slot_orig@[s] == e.1 && e.0 == slot_sum(idx, lut, s);
        assert(idx.slot_orig@[s] == e.1);
    }
}

/// Each row of an inverted file is stored in the cells of its nearest pivots, `a0` to a row, the first of
/// them that of the nearest pivot of all.
pub proof fn law_rows_are_stored_with_their_nearest_pivots(r: FlatIvf, data: Seq<i8>, nb: nat, a0: nat, i: int, j: int)
    requires
        r.wf(),
        0 <= i < nb,
        0 <= j < a0,
        nb * r.d <= data.len(),
    ensures
        ({
            let row = row_of(data, r.d as nat, i);
            let cells = assignment(r, data, nb, a0);
            &&& cells.len() == nb * a0
            &&& j < r.c ==> cells[i * a0 + j] == r.probed(row, row, a0)[j]
            &&& j >= r.c ==> cells[i * a0 + j] == 0
            &&& cells[i * a0] < r.c
            &&& forall|c: int| 0 <= c < r.c ==> l2(row, row_of(r.pivots@, r.d as nat, cells[i * a0] as int)) <= l2(row, #[trigger] row_of(r.pivots@, r.d as nat, c))
        }),
{
    let d = r.d as nat;
    let row = row_of(data, d, i);
    let cells = assignment(r, data, nb, a0);
    let near = r.probed(row, row, a0);
    let far = |c: u32| l2(row, row_of(r.pivots@, r.d as nat, c as int));
    lemma_row_in_range(i, d as int, nb as int, data.len() as int);
    let (n, a) = (nb as int, a0 as int);
    assert(0 <= i * a && i * a + a <= n * a) by (nonlinear_arith)
        requires
            0 <= i < n,
            0 <= a,
    ;
    assert forall|t: int| 0 <= t < a0 implies #[trigger] cells[i * a0 + t] == r.assigned(row, row, a0)[t] by {
        assert((i * a + t) / a == i && (i * a + t) % a == t) by {
            vstd::arithmetic::div_mod::lemma_fundamental_div_mod_converse(i * a + t, a, i, t);
        }
    }
    law_flat_routing_takes_the_nearest(r, row, row, a0);
    lemma_smallest(r.scores(row), a0);
    assert(near.len() == (if a0 < r.c { a0 } else { r.c as nat }));
    assert(cells[i * a0 + 0] == r.assigned(row, row, a0)[0]);
    let all = r.assigned(row, row, a0);
    assert(near =~= all.take(near.len() as int));
    assert(all[0] == near[0]);
    assert(below(r.c as nat)(near[0]));
    assert forall|c: int| 0 <= c < r.c implies l2(row, row_of(r.pivots@, r.d as nat, near[0] as int)) <= l2(row, #[trigger] row_of(r.pivots@, r.d as nat, c)) by {
        let u = c as u32;
        assert(below(r.c as nat)(u));
        if near.contains(u) {
            let x = choose|x: int| 0 <= x < near.len() && near[x] == u;
            if x > 0 {
                assert(nearer(far, near[0], near[x]));
            }
        } else {
            assert(nearer(far, near[0], u));
        }
    }
}

// ---------------------------------------------------------------- entries, copies, keys

/// The entries of a directory lie evenly: entry `j` of `n` is the last row that is no further along the
/// data than `j` is along the directory.
pub proof fn law_directory_is_even(j: int, nb: int, n: int)
    requires
        0 <= j < n,
        nb >= 0,
    ensures
        n * directory_row(j, nb, n) <= j * nb < n * (directory_row(j, nb, n) + 1),
{
    vstd::arithmetic::div_mod::lemma_fundamental_div_mod(j * nb, n);
    vstd::arithmetic::div_mod::lemma_mod_division_less_than_divisor(j * nb, n);
    let row = directory_row(j, nb, n);
    assert(n * (row + 1) == n * row + n) by (nonlinear_arith);
}

/// No row of a directory that is left out has a larger inner product with the query than one that is
/// taken.
pub proof fn law_entries_have_the_largest_products(ds: I8Bin<'_>, q: Seq<i8>, ids: Seq<u32>, w: nat)
    requires
        q.len() <= DOT_DIM,
    ensures
        ({
            let r = ids_of(smallest(entry_scores(ds, q, ids), w));
            &&& r.len() == (if w < ids.len() { w } else { ids.len() })
            &&& forall|i: int| 0 <= i < r.len() ==> ids.contains(#[trigger] r[i])
            &&& forall|i: int, j: int| 0 <= i <= j < r.len() ==> dot(q, ds.spec_row(#[trigger] r[i] as int)) >= dot(q, ds.spec_row(#[trigger] r[j] as int))
            &&& forall|i: int, x: int| 0 <= i < r.len() && 0 <= x < ids.len() && !r.contains(#[trigger] ids[x]) ==> dot(q, ds.spec_row(#[trigger] r[i] as int)) >= dot(q, ds.spec_row(ids[x] as int))
        }),
{
    let s = entry_scores(ds, q, ids);
    let kept = smallest(s, w);
    let r = ids_of(kept);
    lemma_keeps(s, w);
    assert forall|x: int| 0 <= x < s.len() implies (#[trigger] s[x]).0 == -dot(q, ds.spec_row(s[x].1 as int)) by {
        lemma_inner_bound(q, ds.spec_row(ids[x] as int), q.len());
    }
    assert forall|i: int| 0 <= i < kept.len() implies (#[trigger] kept[i]).0 == -dot(q, ds.spec_row(kept[i].1 as int)) && ids.contains(kept[i].1) by {
        assert(s.contains(kept[i]));
        let x = choose|x: int| 0 <= x < s.len() && s[x] == kept[i];
        assert(s[x] == kept[i]);
        assert(ids[x] == kept[i].1);
    }
    assert forall|i: int, j: int| 0 <= i <= j < r.len() implies dot(q, ds.spec_row(#[trigger] r[i] as int)) >= dot(q, ds.spec_row(#[trigger] r[j] as int)) by {
        assert(kept[i].0 <= kept[j].0);
    }
    assert forall|i: int, x: int| 0 <= i < r.len() && 0 <= x < ids.len() && !r.contains(#[trigger] ids[x]) implies dot(q, ds.spec_row(#[trigger] r[i] as int)) >= dot(q, ds.spec_row(ids[x] as int)) by {
        assert(s.contains(s[x]));
        if kept.contains(s[x]) {
            let y = choose|y: int| 0 <= y < kept.len() && kept[y] == s[x];
            assert(r[y] == ids[x]);
        }
        assert(kept[i].0 <= s[x].0);
    }
}

/// The further copies of a point go to the cells of least loss among the other candidates, least first.
pub proof fn law_further_copies_have_least_loss(cands: Seq<(i32, u32)>, losses: Seq<u32>, a0: nat, loss: spec_fn(u32) -> int)
    requires
        a0 >= 1,
        cands.len() >= 1,
        losses.len() == cands.len() - 1,
        ids_of(cands).no_duplicates(),
        forall|i: int| 0 <= i < losses.len() ==> loss((#[trigger] cands[i + 1]).1) == order_key(losses[i]),
    ensures
        spilled(cands, losses, a0).len() >= 1,
        spilled(cands, losses, a0)[0] == cands[0].1,
        chooses_nearest(listed(ids_of(cands).skip(1)), loss, Some((a0 - 1) as nat), spilled(cands, losses, a0).skip(1)),
{
    let s = keyed(with_losses(cands, losses));
    let r = spilled(cands, losses, a0);
    assert forall|i: int| 0 <= i < s.len() implies (#[trigger] s[i]).0 == loss(s[i].1) && s[i].1 == cands[i + 1].1 by {
        assert(cands[i + 1].1 == s[i].1);
    }
    assert(ids_of(s) =~= ids_of(cands).skip(1));
    assert(ids_of(s).no_duplicates()) by {
        assert forall|i: int, j: int| 0 <= i < s.len() && 0 <= j < s.len() && i != j implies ids_of(s)[i] != ids_of(s)[j] by {
            assert(ids_of(cands)[i + 1] != ids_of(cands)[j + 1]);
        }
    }
    let may = listed(ids_of(s));
    assert forall|i: int| 0 <= i < s.len() implies may((#[trigger] s[i]).1) by {
        assert(ids_of(s)[i] == s[i].1);
    }
    let t = (a0 - 1) as nat;
    lemma_chooses(s, Some(t), may, loss);
    lemma_ascending(s);
    assert(r.skip(1) =~= ids_of(smallest(s, t)));
}

/// Points that are ranked by the keys of their scores come from the lowest key on, each once.
pub proof fn law_keys_rank_the_points(ids: Seq<u32>, keys: Seq<u32>, k: nat, place: spec_fn(u32) -> int)
    requires
        keys.len() == ids.len(),
        forall|i: int| 0 <= i < ids.len() ==> place(#[trigger] ids[i]) == order_key(keys[i]),
    ensures
        chooses_nearest(listed(ids), place, Some(k), distinct_ids(ascending(keyed(scored_points(ids, keys))), k, ids.len())),
{
    let s = keyed(scored_points(ids, keys));
    assert forall|i: int| 0 <= i < s.len() implies (#[trigger] s[i]).0 == place(s[i].1) by {
        assert(s[i].1 == ids[i]);
    }
    assert(ids_of(s) =~= ids);
    law_ranking_chooses_the_lowest(s, place, k);
}

} // verus!
