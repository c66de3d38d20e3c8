//! What a search over the built index and the append buffer answers, and what insertions and
//! deletions do to the points that it ranges over.

use crate::compress::{Compressor, QueryCtx};
use crate::index::{Index, ScanKnobs};
use crate::live::{ins_lanes, lemma_gathered_has, lemma_ins_lanes};
use crate::order::{ascending, lemma_ascending, lemma_ascending_of_sorted, sorted, Ranked};
use crate::rerank::{distinct_ids, first_ids, law_distinct_ids, lemma_nearest, lemma_score_fits, lists, nearest, rescored, row_index, score, NO_POINT};
use crate::router::{ids_of, Router};
use crate::search::{capped, lemma_smallest_live, live_slots, slots_in};
use crate::simd::{dot, l2, row_of};
use crate::truth::{best_of, exact, held, lemma_full_scan_keeps_all, lemma_rerank_keeps, lemma_wide_cap_names, names, rerank_list};
use vstd::prelude::*;

verus! {

/// Taking distinct ids off an ascending list takes the best ones: the ids come in the order of their
/// scores, and one that is left out is no better than the last one taken.
proof fn lemma_distinct_best(s: Seq<(i32, u32)>, f: spec_fn(u32) -> int, k: nat, n: nat)
    requires
        n <= s.len(),
        k > 0,
        sorted(s),
        forall|i: int| 0 <= i < s.len() ==> (#[trigger] s[i]).0 == f(s[i].1),
    ensures
        ({
            let r = distinct_ids(s, k, n);
            &&& forall|i: int, j: int| 0 <= i <= j < r.len() ==> f(#[trigger] r[i]) <= f(#[trigger] r[j])
            &&& forall|i: int| 0 <= i < r.len() && n > 0 ==> f(#[trigger] r[i]) <= s[n - 1].0
            &&& forall|j: int| 0 <= j < n ==> r.contains((#[trigger] s[j]).1) || (r.len() == k && f(r.last()) <= s[j].0)
        }),
    decreases n,
{
    if n > 0 {
        let m = (n - 1) as nat;
        lemma_distinct_best(s, f, k, m);
        law_distinct_ids(s, k, m);
        let p = distinct_ids(s, k, m);
        let r = distinct_ids(s, k, n);
        assert(s[m as int].0 == f(s[m as int].1));
        assert forall|i: int| 0 <= i < p.len() implies f(#[trigger] p[i]) <= s[m as int].0 by {
            assert(m > 0) by {
                if m == 0 {
                    assert(p.len() == 0);
                }
            }
            assert(s[m - 1].le(s[m as int]));
        }
        assert forall|i: int| 0 <= i < r.len() implies f(#[trigger] r[i]) <= s[n - 1].0 by {
            if i < p.len() {
                assert(r[i] == p[i]);
            }
        }
        assert forall|i: int, j: int| 0 <= i <= j < r.len() implies f(#[trigger] r[i]) <= f(#[trigger] r[j]) by {
            if j < p.len() {
                assert(r[i] == p[i] && r[j] == p[j]);
            } else if i < p.len() {
                assert(r[i] == p[i]);
            }
        }
        assert forall|j: int| 0 <= j < n implies r.contains((#[trigger] s[j]).1) || (r.len() == k && f(r.last()) <= s[j].0) by {
            if j < m {
                if p.contains(s[j].1) {
                    let x = choose|x: int| 0 <= x < p.len() && p[x] == s[j].1;
                    assert(r[x] == s[j].1);
                } else {
                    assert(r == p);
                }
            } else if r.len() > p.len() {
                assert(r[p.len() as int] == s[m as int].1);
            } else if !p.contains(s[m as int].1) {
                assert(r == p && p.len() == k);
                assert(f(p[k - 1]) <= s[m as int].0);
            }
        }
    }
}

/// More distinct ids than `r` has room for are not all in it.
proof fn lemma_too_many(h: Seq<(i32, u32)>, r: Seq<u32>)
    requires
        h.len() > r.len(),
        forall|i: int, j: int| 0 <= i < j < h.len() ==> (#[trigger] h[i]).1 != (#[trigger] h[j]).1,
    ensures
        exists|i: int| 0 <= i < h.len() && !r.contains((#[trigger] h[i]).1),
{
    if forall|i: int| 0 <= i < h.len() ==> r.contains((#[trigger] h[i]).1) {
        let a = ids_of(h);
        assert(a.no_duplicates()) by {
            assert forall|i: int, j: int| 0 <= i < a.len() && 0 <= j < a.len() && i != j implies a[i] != a[j] by {
                if i < j {
                    assert(h[i].1 != h[j].1);
                } else {
                    assert(h[j].1 != h[i].1);
                }
            }
        }
        a.unique_seq_to_set();
        r.lemma_cardinality_of_set();
        assert(a.to_set().subset_of(r.to_set())) by {
            assert forall|x: u32| a.to_set().contains(x) implies r.to_set().contains(x) by {
                let i = choose|i: int| 0 <= i < a.len() && a[i] == x;
                assert(r.contains(h[i].1));
            }
        }
        vstd::seq_lib::seq_to_set_is_finite(r);
        vstd::set_lib::lemma_len_subset(a.to_set(), r.to_set());
    }
}

/// A store's list `h` is part of what is merged; a point that it leaves out is no better than the
/// answers.
proof fn lemma_left_out(h: Seq<(i32, u32)>, s: Seq<(i32, u32)>, f: spec_fn(u32) -> int, k: nat, x: int)
    requires
        k > 0,
        h.len() == 4 * k,
        sorted(h),
        h.last().0 <= x,
        forall|i: int, j: int| 0 <= i < j < h.len() ==> (#[trigger] h[i]).1 != (#[trigger] h[j]).1,
        forall|i: int| 0 <= i < h.len() ==> s.contains(#[trigger] h[i]),
        sorted(s),
        forall|i: int| 0 <= i < s.len() ==> (#[trigger] s[i]).0 == f(s[i].1),
    ensures
        ({
            let r = distinct_ids(s, k, s.len());
            r.len() == k && f(r.last()) <= x
        }),
{
    let r = distinct_ids(s, k, s.len());
    lemma_distinct_best(s, f, k, s.len());
    law_distinct_ids(s, k, s.len());
    lemma_too_many(h, r);
    let i = choose|i: int| 0 <= i < h.len() && !r.contains((#[trigger] h[i]).1);
    assert(s.contains(h[i]));
    let j = choose|j: int| 0 <= j < s.len() && s[j] == h[i];
    assert(!r.contains(s[j].1));
    assert(h[i].le(h[h.len() - 1]));
}

impl<R: Router, C: Compressor> Index<R, C> {
    /// The rows of the append buffer are those of their points.
    pub open spec fn reads_appended(&self, data: Seq<i8>) -> bool {
        forall|g: int| 0 <= g < self.ins_orig@.len() && #[trigger] self.ins_orig@[g] != NO_POINT ==> row_of(self.ins_raw@, self.d as nat, g) == row_of(data, self.d as nat, self.ins_orig@[g] as int)
    }

    /// A cell lists the appended point with number `g`.
    pub open spec fn listed(&self, g: int) -> bool {
        exists|c: u32| c < self.nc() && (#[trigger] self.ins_gidx@[c as int])@.contains(g as u32)
    }

    /// Every appended point is listed in some cell.
    pub open spec fn lists_appended(&self) -> bool {
        forall|g: int| 0 <= g < self.ins_orig@.len() && #[trigger] self.ins_orig@[g] != NO_POINT ==> self.listed(g)
    }

    /// The points that are built or appended, and not deleted.
    pub open spec fn alive(&self) -> Set<u32> {
        held(self.slot_orig@).union(held(self.ins_orig@))
    }
}

/// The candidates of the append buffer are points that are not deleted.
proof fn lemma_lanes_alive(scores: Seq<i32>, gidx: Seq<u32>, orig: Seq<u32>, n: nat)
    requires
        n <= gidx.len(),
        forall|i: int| 0 <= i < gidx.len() ==> #[trigger] gidx[i] < orig.len(),
    ensures
        live_slots(ins_lanes(scores, gidx, orig, n), orig),
    decreases n,
{
    if n > 0 {
        lemma_lanes_alive(scores, gidx, orig, (n - 1) as nat);
        assert(gidx[n - 1] < orig.len());
    }
}

proof fn lemma_buffer_alive<R: Router, C: Compressor>(ix: &Index<R, C>, ctx: QueryCtx, q: Seq<i8>, cells: Seq<u32>)
    requires
        ix.ins_lists_ok(),
        ix.cells_exist(cells),
    ensures
        live_slots(ix.ins_pool(ctx, q, cells), ix.ins_orig@),
    decreases cells.len(),
{
    if cells.len() > 0 {
        let rest = cells.drop_last();
        let c = cells.last();
        assert(c == cells[cells.len() - 1]);
        assert forall|i: int| 0 <= i < rest.len() implies #[trigger] rest[i] < ix.nc() by {
            assert(rest[i] == cells[i]);
        }
        lemma_buffer_alive(ix, ctx, q, rest);
        let gidx = ix.ins_gidx@[c as int]@;
        assert forall|i: int| 0 <= i < gidx.len() implies #[trigger] gidx[i] < ix.ins_orig@.len() by {
            assert(ix.ins_gidx@[c as int]@[i] < ix.ins_orig@.len());
        }
        lemma_lanes_alive(ix.ins_scores(ctx, q, c as int), gidx, ix.ins_orig@, gidx.len());
    }
}

/// A scan of all cells meets every appended point.
proof fn lemma_buffer_scan_keeps_all<R: Router, C: Compressor>(ix: &Index<R, C>, ctx: QueryCtx, q: Seq<i8>, cells: Seq<u32>, t: nat, o: u32)
    requires
        ix.ins_lists_ok(),
        ix.lists_appended(),
        ix.cells_exist(cells),
        forall|c: u32| c < ix.nc() ==> cells.contains(c),
        t == 0 || t >= ix.ins_pool(ctx, q, cells).len(),
        held(ix.ins_orig@).contains(o),
    ensures
        names(capped(ix.ins_pool(ctx, q, cells), t), ix.ins_orig@, o),
{
    let orig = ix.ins_orig@;
    let pool = ix.ins_pool(ctx, q, cells);
    let g = choose|g: int| 0 <= g < orig.len() && orig[g] == o;
    assert(ix.listed(g));
    let c = choose|c: u32| c < ix.nc() && (#[trigger] ix.ins_gidx@[c as int])@.contains(g as u32);
    let gidx = ix.ins_gidx@[c as int]@;
    let at = choose|at: int| 0 <= at < gidx.len() && gidx[at] == g as u32;
    assert forall|i: int| 0 <= i < gidx.len() implies #[trigger] gidx[i] < orig.len() by {
        assert(ix.ins_gidx@[c as int]@[i] < orig.len());
    }
    let scores = ix.ins_scores(ctx, q, c as int);
    lemma_ins_lanes(scores, gidx, orig, gidx.len());
    let f = ix.ins_cell_pool(ctx, q);
    assert(f(c).contains((scores[at], gidx[at])));
    assert(cells.contains(c));
    lemma_gathered_has(f, cells, c, (scores[at], gidx[at]));
    let x = choose|x: int| 0 <= x < pool.len() && pool[x] == (scores[at], gidx[at]);
    assert(orig[pool[x].1 as int] == o);
    assert(names(pool, orig, o));
    if t > 0 {
        lemma_wide_cap_names(pool, t, orig, o);
    }
}

/// The places in a list of the distinct ids taken off it.
pub open spec fn distinct_at(s: Seq<(i32, u32)>, k: nat, n: nat) -> Seq<int>
    decreases n,
{
    if n == 0 {
        Seq::empty()
    } else {
        let prev = distinct_at(s, k, (n - 1) as nat);
        let ids = distinct_ids(s, k, (n - 1) as nat);
        if ids.contains(s[n - 1].1) || ids.len() >= k {
            prev
        } else {
            prev.push(n - 1)
        }
    }
}

proof fn lemma_distinct_at(s: Seq<(i32, u32)>, k: nat, n: nat)
    requires
        n <= s.len(),
    ensures
        distinct_at(s, k, n).len() == distinct_ids(s, k, n).len(),
        forall|i: int| 0 <= i < distinct_at(s, k, n).len() ==> 0 <= #[trigger] distinct_at(s, k, n)[i] < n && s[distinct_at(s, k, n)[i]].1 == distinct_ids(s, k, n)[i],
        forall|i: int, j: int| 0 <= i < j < distinct_at(s, k, n).len() ==> #[trigger] distinct_at(s, k, n)[i] < #[trigger] distinct_at(s, k, n)[j],
    decreases n,
{
    if n > 0 {
        lemma_distinct_at(s, k, (n - 1) as nat);
        let prev = distinct_at(s, k, (n - 1) as nat);
        let all = distinct_at(s, k, n);
        assert forall|i: int, j: int| 0 <= i < j < all.len() implies #[trigger] all[i] < #[trigger] all[j] by {
            assert(all[i] == prev[i]);
            if j < prev.len() {
                assert(all[j] == prev[j]);
            }
        }
    }
}

impl<R: Router, C: Compressor> Index<R, C> {
    /// `x` is the exact score of a row that is stored for point `o`, built or appended.
    pub open spec fn stores(&self, ip: bool, q: Seq<i8>, o: u32, x: int) -> bool {
        ||| scores_row(self.slot_orig@, self.raw@, self.d as nat, self.raw_orig_indexed, ip, q, o, x)
        ||| scores_row(self.ins_orig@, self.ins_raw@, self.d as nat, false, ip, q, o, x)
    }

    /// What a search over both stores ranks: the best of each store, in order.
    pub open spec fn stream_list(&self, q: Seq<i8>, data: Seq<i8>, cells: Seq<u32>, t: nat, k: nat, knobs: ScanKnobs) -> Seq<(i32, u32)> {
        ascending(
            if self.ins_raw@.len() > 0 {
                self.built_best(q, data, cells, t, k, knobs) + self.appended_best(q, cells, t, k, knobs.ip)
            } else {
                self.built_best(q, data, cells, t, k, knobs)
            },
        )
    }

    /// The exact scores of the answers of a search over both stores.
    pub open spec fn stream_scores(&self, q: Seq<i8>, data: Seq<i8>, cells: Seq<u32>, t: nat, k: nat, knobs: ScanKnobs) -> Seq<int> {
        let s = self.stream_list(q, data, cells, t, k, knobs);
        let at = distinct_at(s, k, s.len());
        Seq::new(at.len(), |i: int| s[at[i]].0 as int)
    }
}

/// `x` is the exact score of the row of a slot that holds `o`.
pub open spec fn scores_row(orig: Seq<u32>, raw: Seq<i8>, d: nat, by: bool, ip: bool, q: Seq<i8>, o: u32, x: int) -> bool {
    exists|s: int| 0 <= s < orig.len() && #[trigger] orig[s] == o && x == (if ip {
        -dot(q, row_of(raw, d, row_index(orig, s as u32, by)))
    } else {
        l2(q, row_of(raw, d, row_index(orig, s as u32, by)))
    })
}

proof fn lemma_rescored_rows(pool: Seq<(i32, u32)>, orig: Seq<u32>, raw: Seq<i8>, d: nat, q: Seq<i8>, by: bool, ip: bool, n: nat)
    requires
        n <= pool.len(),
        live_slots(pool, orig),
        q.len() == d,
        d <= crate::simd::L2_DIM,
    ensures
        forall|i: int| 0 <= i < rescored(pool, orig, raw, d, q, by, ip, n).len() ==> {
            let e = #[trigger] rescored(pool, orig, raw, d, q, by, ip, n)[i];
            e.1 != NO_POINT && scores_row(orig, raw, d, by, ip, q, e.1, e.0 as int)
        },
    decreases n,
{
    if n > 0 {
        lemma_rescored_rows(pool, orig, raw, d, q, by, ip, (n - 1) as nat);
        let prev = rescored(pool, orig, raw, d, q, by, ip, (n - 1) as nat);
        let all = rescored(pool, orig, raw, d, q, by, ip, n);
        let slot = pool[n - 1].1;
        assert(slot < orig.len() && orig[slot as int] != NO_POINT);
        let row = row_of(raw, d, row_index(orig, slot, by));
        lemma_score_fits(ip, q, row);
        assert forall|i: int| 0 <= i < all.len() implies (#[trigger] all[i]).1 != NO_POINT && scores_row(orig, raw, d, by, ip, q, all[i].1, all[i].0 as int) by {
            if i < prev.len() {
                assert(all[i] == prev[i]);
            } else {
                assert(all[i] == (score(ip, q, row) as i32, orig[slot as int]));
                assert((slot as int) as u32 == slot);
                assert(orig[slot as int] == all[i].1);
            }
        }
    }
}

/// What the rerank of a store keeps are points of the store with exact scores.
proof fn lemma_kept_rows(pool: Seq<(i32, u32)>, orig: Seq<u32>, raw: Seq<i8>, d: nat, q: Seq<i8>, by: bool, ip: bool, m: nat)
    requires
        live_slots(pool, orig),
        q.len() == d,
        d <= crate::simd::L2_DIM,
    ensures
        forall|i: int| 0 <= i < nearest(rescored(pool, orig, raw, d, q, by, ip, pool.len()), m).len() ==> {
            let e = #[trigger] nearest(rescored(pool, orig, raw, d, q, by, ip, pool.len()), m)[i];
            e.1 != NO_POINT && scores_row(orig, raw, d, by, ip, q, e.1, e.0 as int)
        },
{
    let cands = rescored(pool, orig, raw, d, q, by, ip, pool.len());
    lemma_rescored_rows(pool, orig, raw, d, q, by, ip, pool.len());
    if m > 0 {
        lemma_nearest(cands, m, cands.len());
        let h = nearest(cands, m);
        assert forall|i: int| 0 <= i < h.len() implies (#[trigger] h[i]).1 != NO_POINT && scores_row(orig, raw, d, by, ip, q, h[i].1, h[i].0 as int) by {
            let c = choose|c: int| 0 <= c < cands.len() && #[trigger] cands[c] == h[i];
            assert(cands[c].1 != NO_POINT);
        }
    }
}

/// The answers of a search over both stores, whatever it probes: at most `k` distinct points that are
/// alive, in the order of the exact scores of rows that are stored for them.
pub proof fn law_stream_answers_in_order<R: Router, C: Compressor>(ix: &Index<R, C>, q: Seq<i8>, data: Seq<i8>, cells: Seq<u32>, t: nat, k: nat, knobs: ScanKnobs)
    requires
        ix.wf(),
        q.len() == ix.d,
        ix.cells_exist(cells),
    ensures
        ({
            let r = ix.stream_found(q, data, cells, t, k, knobs);
            let x = ix.stream_scores(q, data, cells, t, k, knobs);
            &&& r.len() <= k
            &&& r.no_duplicates()
            &&& x.len() == r.len()
            &&& forall|i: int| 0 <= i < r.len() ==> ix.alive().contains(#[trigger] r[i]) && ix.stores(knobs.ip, q, r[i], x[i])
            &&& forall|i: int, j: int| 0 <= i <= j < x.len() ==> #[trigger] x[i] <= #[trigger] x[j]
        }),
{
    let ctx = ix.comp.prepared(q);
    let d = ix.d as nat;
    let ip = knobs.ip;
    let plain = ScanKnobs { fused: false, sort_cells: false, ..knobs };
    let bpool = ix.survivors_of(ctx, q, data, cells, t, plain);
    let apool = capped(ix.ins_pool(ctx, q, cells), t);
    ix.lemma_survivors_live(ctx, q, data, cells, t, plain);
    lemma_buffer_alive(ix, ctx, q, cells);
    if t > 0 {
        lemma_smallest_live(ix.ins_pool(ctx, q, cells), t, ix.ins_orig@);
    }
    let b = ix.built_best(q, data, cells, t, k, knobs);
    let a = ix.appended_best(q, cells, t, k, ip);
    lemma_kept_rows(bpool, ix.slot_orig@, ix.raw@, d, q, ix.raw_orig_indexed, ip, (if 4 * k < bpool.len() { 4 * k } else { bpool.len() }) as nat);
    lemma_kept_rows(apool, ix.ins_orig@, ix.ins_raw@, d, q, false, ip, (if 4 * k < apool.len() { 4 * k } else { apool.len() }) as nat);
    let both = ix.ins_raw@.len() > 0;
    let all = if both {
        b + a
    } else {
        b
    };
    let s = ix.stream_list(q, data, cells, t, k, knobs);
    let r = ix.stream_found(q, data, cells, t, k, knobs);
    let x = ix.stream_scores(q, data, cells, t, k, knobs);
    lemma_ascending(all);
    assert(s == ascending(all) && s.len() == all.len());
    assert(r == distinct_ids(s, k, s.len()));
    law_distinct_ids(s, k, s.len());
    lemma_distinct_at(s, k, s.len());
    let at = distinct_at(s, k, s.len());
    assert forall|i: int| 0 <= i < r.len() implies ix.alive().contains(#[trigger] r[i]) && ix.stores(ip, q, r[i], x[i]) by {
        let e = s[at[i]];
        assert(e.1 == r[i] && e.0 == x[i]);
        lemma_from_either(all, b, a, both, s, at[i]);
        if b.contains(e) {
            let y = choose|y: int| 0 <= y < b.len() && b[y] == e;
            assert(b[y].1 != NO_POINT && scores_row(ix.slot_orig@, ix.raw@, d, ix.raw_orig_indexed, ip, q, b[y].1, b[y].0 as int));
            let z = choose|z: int| 0 <= z < ix.slot_orig@.len() && #[trigger] ix.slot_orig@[z] == e.1 && e.0 as int == score(ip, q, row_of(ix.raw@, d, row_index(ix.slot_orig@, z as u32, ix.raw_orig_indexed)));
            assert(ix.slot_orig@.contains(e.1));
        } else {
            let y = choose|y: int| 0 <= y < a.len() && a[y] == e;
            assert(a[y].1 != NO_POINT && scores_row(ix.ins_orig@, ix.ins_raw@, d, false, ip, q, a[y].1, a[y].0 as int));
            let z = choose|z: int| 0 <= z < ix.ins_orig@.len() && #[trigger] ix.ins_orig@[z] == e.1 && e.0 as int == score(ip, q, row_of(ix.ins_raw@, d, row_index(ix.ins_orig@, z as u32, false)));
            assert(ix.ins_orig@.contains(e.1));
        }
    }
    assert forall|i: int, j: int| 0 <= i <= j < x.len() implies #[trigger] x[i] <= #[trigger] x[j] by {
        if i < j {
            assert(at[i] < at[j]);
            assert(s[at[i]].le(s[at[j]]));
        }
    }
}

/// Where each point has one row, the answers of a search over both stores come by exact score, whatever
/// it probes.
pub proof fn law_stream_answers_by_distance<R: Router, C: Compressor>(ix: &Index<R, C>, q: Seq<i8>, data: Seq<i8>, cells: Seq<u32>, t: nat, k: nat, knobs: ScanKnobs)
    requires
        ix.wf(),
        ix.reads(data),
        ix.reads_appended(data),
        q.len() == ix.d,
        ix.cells_exist(cells),
    ensures
        ({
            let r = ix.stream_found(q, data, cells, t, k, knobs);
            &&& r.len() <= k
            &&& r.no_duplicates()
            &&& forall|i: int| 0 <= i < r.len() ==> ix.alive().contains(#[trigger] r[i])
            &&& forall|i: int, j: int| 0 <= i <= j < r.len() ==> exact(knobs.ip, q, data, ix.d as nat, #[trigger] r[i]) <= exact(knobs.ip, q, data, ix.d as nat, #[trigger] r[j])
        }),
{
    law_stream_answers_in_order(ix, q, data, cells, t, k, knobs);
    let r = ix.stream_found(q, data, cells, t, k, knobs);
    let x = ix.stream_scores(q, data, cells, t, k, knobs);
    let d = ix.d as nat;
    let ip = knobs.ip;
    assert forall|i: int| 0 <= i < r.len() implies x[i] == exact(ip, q, data, d, #[trigger] r[i]) by {
        assert(ix.alive().contains(r[i]));
        let o = r[i];
        if scores_row(ix.slot_orig@, ix.raw@, d, ix.raw_orig_indexed, ip, q, o, x[i]) {
            let z = choose|z: int| 0 <= z < ix.slot_orig@.len() && #[trigger] ix.slot_orig@[z] == o && x[i] == score(ip, q, row_of(ix.raw@, d, row_index(ix.slot_orig@, z as u32, ix.raw_orig_indexed)));
            assert(ix.slot_orig@[z] != NO_POINT);
        } else {
            let z = choose|z: int| 0 <= z < ix.ins_orig@.len() && #[trigger] ix.ins_orig@[z] == o && x[i] == score(ip, q, row_of(ix.ins_raw@, d, row_index(ix.ins_orig@, z as u32, false)));
            assert((z as u32) as int == z);
            assert(ix.ins_orig@[z] != NO_POINT);
        }
    }
    assert forall|i: int, j: int| 0 <= i <= j < r.len() implies exact(ip, q, data, d, #[trigger] r[i]) <= exact(ip, q, data, d, #[trigger] r[j]) by {
        assert(x[i] <= x[j]);
    }
}

proof fn lemma_from_either(all: Seq<(i32, u32)>, b: Seq<(i32, u32)>, a: Seq<(i32, u32)>, both: bool, s: Seq<(i32, u32)>, i: int)
    requires
        all == (if both {
            b + a
        } else {
            b
        }),
        s.to_multiset() == all.to_multiset(),
        0 <= i < s.len(),
    ensures
        b.contains(s[i]) || (both && a.contains(s[i])),
{
    broadcast use vstd::seq_lib::group_to_multiset_ensures;

    assert(s.contains(s[i]));
    assert(all.to_multiset().count(s[i]) > 0);
    assert(all.contains(s[i]));
    let x = choose|x: int| 0 <= x < all.len() && all[x] == s[i];
    if x < b.len() {
        assert(b[x] == s[i]);
    } else {
        assert(a[x - b.len()] == s[i]);
    }
}

/// The points that a search over both stores ranks: those that survive the scan of the built cells, and
/// those of the `t` best appended candidates.
pub open spec fn ranked_points<R: Router, C: Compressor>(ix: &Index<R, C>, q: Seq<i8>, data: Seq<i8>, cells: Seq<u32>, t: nat, knobs: ScanKnobs) -> Set<u32> {
    let built = ix.survivors_of(ix.comp.prepared(q), q, data, cells, t, (ScanKnobs { fused: false, sort_cells: false, ..knobs }));
    let appended = capped(ix.ins_pool(ix.comp.prepared(q), q, cells), t);
    Set::new(|o: u32| names(built, ix.slot_orig@, o) || (ix.ins_raw@.len() > 0 && names(appended, ix.ins_orig@, o)))
}

/// A search over both stores answers the `k` best of the points that it ranks.
pub proof fn law_stream_answers_the_best_survivors<R: Router, C: Compressor>(ix: &Index<R, C>, q: Seq<i8>, data: Seq<i8>, cells: Seq<u32>, t: nat, k: nat, knobs: ScanKnobs)
    requires
        ix.wf(),
        ix.reads(data),
        ix.reads_appended(data),
        q.len() == ix.d,
        ix.cells_exist(cells),
    ensures
        best_of(ix.stream_found(q, data, cells, t, k, knobs), k, ranked_points(ix, q, data, cells, t, knobs), knobs.ip, q, data, ix.d as nat),
{
    law_stream_answers_by_distance(ix, q, data, cells, t, k, knobs);
    if k > 0 {
        lemma_stream_of_survivors(ix, q, data, cells, t, k, knobs);
    }
}

proof fn lemma_stream_of_survivors<R: Router, C: Compressor>(ix: &Index<R, C>, q: Seq<i8>, data: Seq<i8>, cells: Seq<u32>, t: nat, k: nat, knobs: ScanKnobs)
    requires
        ix.wf(),
        ix.reads(data),
        ix.reads_appended(data),
        q.len() == ix.d,
        ix.cells_exist(cells),
        k > 0,
    ensures
        best_of(ix.stream_found(q, data, cells, t, k, knobs), k, ranked_points(ix, q, data, cells, t, knobs), knobs.ip, q, data, ix.d as nat),
{
    law_stream_answers_by_distance(ix, q, data, cells, t, k, knobs);
    let ctx = ix.comp.prepared(q);
    let d = ix.d as nat;
    let ip = knobs.ip;
    let plain = ScanKnobs { fused: false, sort_cells: false, ..knobs };
    let bpool = ix.survivors_of(ctx, q, data, cells, t, plain);
    let apool = capped(ix.ins_pool(ctx, q, cells), t);
    let f = |o: u32| exact(ip, q, data, d, o);
    let points = ranked_points(ix, q, data, cells, t, knobs);
    ix.lemma_survivors_live(ctx, q, data, cells, t, plain);
    lemma_rerank_keeps(bpool, ix.slot_orig@, ix.raw@, d, q, ix.raw_orig_indexed, ip, data, k);
    let b = rerank_list(bpool, ix.slot_orig@, ix.raw@, d, q, ix.raw_orig_indexed, ip, k);
    assert(b == ix.built_best(q, data, cells, t, k, knobs));
    lemma_buffer_alive(ix, ctx, q, cells);
    if t > 0 {
        lemma_smallest_live(ix.ins_pool(ctx, q, cells), t, ix.ins_orig@);
    }
    assert forall|s: int| 0 <= s < ix.ins_orig@.len() && #[trigger] ix.ins_orig@[s] != NO_POINT implies row_of(ix.ins_raw@, d, row_index(ix.ins_orig@, s as u32, false)) == row_of(data, d, ix.ins_orig@[s] as int) by {
        assert((s as u32) as int == s);
    }
    lemma_rerank_keeps(apool, ix.ins_orig@, ix.ins_raw@, d, q, false, ip, data, k);
    let a = rerank_list(apool, ix.ins_orig@, ix.ins_raw@, d, q, false, ip, k);
    assert(a == ix.appended_best(q, cells, t, k, ip));
    let buffered = ix.ins_raw@.len() > 0;
    let all = if buffered {
        b + a
    } else {
        b
    };
    let s = ascending(all);
    let r = distinct_ids(s, k, s.len());
    lemma_ascending(all);
    assert(s.len() == all.len());
    assert(r == ix.stream_found(q, data, cells, t, k, knobs));
    lemma_merged(all, b, a, buffered, s, f);
    assert forall|i: int| 0 <= i < r.len() implies points.contains(#[trigger] r[i]) by {
        law_distinct_ids(s, k, s.len());
        let j = choose|j: int| 0 <= j < s.len() && (#[trigger] s[j]).1 == r[i];
        if b.contains(s[j]) {
            let x = choose|x: int| 0 <= x < b.len() && b[x] == s[j];
            assert(names(bpool, ix.slot_orig@, b[x].1));
        } else {
            let x = choose|x: int| 0 <= x < a.len() && a[x] == s[j];
            assert(names(apool, ix.ins_orig@, a[x].1));
        }
    }
    assert forall|o: u32| #[trigger] points.contains(o) implies r.contains(o) || (r.len() == k && exact(ip, q, data, d, r.last()) <= exact(ip, q, data, d, o)) by {
        if names(bpool, ix.slot_orig@, o) {
            lemma_answered(b, s, f, k, o);
        } else {
            lemma_answered(a, s, f, k, o);
        }
    }
}

/// A search over both stores that visits every cell and caps nothing is exact: it answers the `k` best
/// of all points that are alive.
pub proof fn law_exhaustive_stream_is_exact<R: Router, C: Compressor>(ix: &Index<R, C>, q: Seq<i8>, data: Seq<i8>, cells: Seq<u32>, t: nat, k: nat, knobs: ScanKnobs)
    requires
        ix.wf(),
        ix.d > 0,
        ix.reads(data),
        ix.reads_appended(data),
        ix.lists_appended(),
        q.len() == ix.d,
        ix.cells_exist(cells),
        forall|c: u32| c < ix.nc() ==> cells.contains(c),
        t == 0 || (t >= slots_in(ix.cell_bstart@, cells) && t >= ix.ins_pool(ix.comp.prepared(q), q, cells).len()),
    ensures
        best_of(ix.stream_found(q, data, cells, t, k, knobs), k, ix.alive(), knobs.ip, q, data, ix.d as nat),
{
    law_stream_answers_by_distance(ix, q, data, cells, t, k, knobs);
    if k > 0 {
        lemma_exhaustive_stream(ix, q, data, cells, t, k, knobs);
    }
}

proof fn lemma_exhaustive_stream<R: Router, C: Compressor>(ix: &Index<R, C>, q: Seq<i8>, data: Seq<i8>, cells: Seq<u32>, t: nat, k: nat, knobs: ScanKnobs)
    requires
        ix.wf(),
        ix.d > 0,
        ix.reads(data),
        ix.reads_appended(data),
        ix.lists_appended(),
        q.len() == ix.d,
        ix.cells_exist(cells),
        forall|c: u32| c < ix.nc() ==> cells.contains(c),
        t == 0 || (t >= slots_in(ix.cell_bstart@, cells) && t >= ix.ins_pool(ix.comp.prepared(q), q, cells).len()),
        k > 0,
    ensures
        best_of(ix.stream_found(q, data, cells, t, k, knobs), k, ix.alive(), knobs.ip, q, data, ix.d as nat),
{
    lemma_stream_of_survivors(ix, q, data, cells, t, k, knobs);
    law_stream_answers_by_distance(ix, q, data, cells, t, k, knobs);
    let ctx = ix.comp.prepared(q);
    let plain = ScanKnobs { fused: false, sort_cells: false, ..knobs };
    let points = ranked_points(ix, q, data, cells, t, knobs);
    let buffered = ix.ins_raw@.len() > 0;
    assert(!buffered ==> ix.ins_orig@.len() == 0) by (nonlinear_arith)
        requires
            ix.ins_raw@.len() == ix.ins_orig@.len() * ix.d,
            ix.d > 0,
            buffered == (ix.ins_raw@.len() > 0),
    ;
    assert forall|o: u32| #[trigger] ix.alive().contains(o) implies points.contains(o) by {
        if held(ix.slot_orig@).contains(o) {
            lemma_full_scan_keeps_all(ix, ctx, q, data, cells, t, plain, o);
        } else {
            assert(held(ix.ins_orig@).contains(o));
            assert(buffered);
            lemma_buffer_scan_keeps_all(ix, ctx, q, cells, t, o);
        }
    }
}

/// The merged list holds both lists and nothing else, each point with its score.
proof fn lemma_merged(all: Seq<(i32, u32)>, b: Seq<(i32, u32)>, a: Seq<(i32, u32)>, both: bool, s: Seq<(i32, u32)>, f: spec_fn(u32) -> int)
    requires
        all == (if both {
            b + a
        } else {
            b
        }),
        s.to_multiset() == all.to_multiset(),
        forall|i: int| 0 <= i < b.len() ==> (#[trigger] b[i]).0 == f(b[i].1),
        forall|i: int| 0 <= i < a.len() ==> (#[trigger] a[i]).0 == f(a[i].1),
    ensures
        forall|i: int| 0 <= i < s.len() ==> b.contains(#[trigger] s[i]) || (both && a.contains(s[i])),
        forall|i: int| 0 <= i < s.len() ==> (#[trigger] s[i]).0 == f(s[i].1),
        forall|i: int| 0 <= i < b.len() ==> s.contains(#[trigger] b[i]),
        both ==> forall|i: int| 0 <= i < a.len() ==> s.contains(#[trigger] a[i]),
{
    broadcast use vstd::seq_lib::group_to_multiset_ensures;

    assert forall|i: int| 0 <= i < s.len() implies b.contains(#[trigger] s[i]) || (both && a.contains(s[i])) by {
        lemma_from_either(all, b, a, both, s, i);
    }
    assert forall|i: int| 0 <= i < s.len() implies (#[trigger] s[i]).0 == f(s[i].1) by {
        if b.contains(s[i]) {
            let x = choose|x: int| 0 <= x < b.len() && b[x] == s[i];
            assert(b[x].0 == f(b[x].1));
        } else {
            let x = choose|x: int| 0 <= x < a.len() && a[x] == s[i];
            assert(a[x].0 == f(a[x].1));
        }
    }
    assert forall|i: int| 0 <= i < b.len() implies s.contains(#[trigger] b[i]) by {
        assert(all[i] == b[i]);
        assert(all.contains(b[i]));
        assert(all.to_multiset().count(b[i]) > 0);
    }
    if both {
        assert forall|i: int| 0 <= i < a.len() implies s.contains(#[trigger] a[i]) by {
            assert(all[b.len() + i] == a[i]);
            assert(all.contains(a[i]));
            assert(all.to_multiset().count(a[i]) > 0);
        }
    }
}

/// A point that a store lists, or leaves out for better ones, is answered or no better than the
/// answers.
proof fn lemma_answered(h: Seq<(i32, u32)>, s: Seq<(i32, u32)>, f: spec_fn(u32) -> int, k: nat, o: u32)
    requires
        k > 0,
        sorted(h),
        sorted(s),
        forall|i: int, j: int| 0 <= i < j < h.len() ==> (#[trigger] h[i]).1 != (#[trigger] h[j]).1,
        forall|i: int| 0 <= i < h.len() ==> s.contains(#[trigger] h[i]),
        forall|i: int| 0 <= i < h.len() ==> (#[trigger] h[i]).0 == f(h[i].1),
        forall|i: int| 0 <= i < s.len() ==> (#[trigger] s[i]).0 == f(s[i].1),
        lists(h, o) || (h.len() == 4 * k && h.last().0 <= f(o)),
    ensures
        ({
            let r = distinct_ids(s, k, s.len());
            r.contains(o) || (r.len() == k && f(r.last()) <= f(o))
        }),
{
    if lists(h, o) {
        let x = choose|x: int| 0 <= x < h.len() && (#[trigger] h[x]).1 == o;
        assert(s.contains(h[x]));
        let j = choose|j: int| 0 <= j < s.len() && s[j] == h[x];
        lemma_distinct_best(s, f, k, s.len());
        assert(s[j].1 == o);
    } else {
        lemma_left_out(h, s, f, k, f(o));
    }
}

/// An insertion adds its point and no other. Rows and lists stay in order where the row is that of the
/// point and the router names a cell for it.
pub proof fn law_insertion_adds_its_point<R: Router, C: Compressor>(pre: &Index<R, C>, post: &Index<R, C>, row: Seq<i8>, id: u32, home: Seq<u32>, data: Seq<i8>)
    requires
        pre.wf(),
        post.wf(),
        post.inserted(pre, row, id, home),
        id != NO_POINT,
        row.len() == pre.d,
        pre.ins_orig@.len() < u32::MAX,
    ensures
        post.alive() == pre.alive().insert(id),
        pre.reads(data) ==> post.reads(data),
        pre.reads_appended(data) && row == row_of(data, pre.d as nat, id as int) ==> post.reads_appended(data),
        pre.lists_appended() && (exists|i: int| 0 <= i < home.len() && #[trigger] home[i] < pre.nc()) ==> post.lists_appended(),
{
    let g = pre.ins_orig@.len() as int;
    let d = pre.d as nat;
    assert(post.alive() =~= pre.alive().insert(id)) by {
        assert forall|o: u32| post.alive().contains(o) == pre.alive().insert(id).contains(o) by {
            if post.ins_orig@.contains(o) {
                let x = choose|x: int| 0 <= x < post.ins_orig@.len() && post.ins_orig@[x] == o;
                if x < g {
                    assert(pre.ins_orig@[x] == o);
                }
            }
            if pre.ins_orig@.contains(o) {
                let x = choose|x: int| 0 <= x < pre.ins_orig@.len() && pre.ins_orig@[x] == o;
                assert(post.ins_orig@[x] == o);
            }
            if o == id {
                assert(post.ins_orig@[g] == o);
            }
        }
    }
    if pre.reads_appended(data) && row == row_of(data, d, id as int) {
        assert forall|x: int| 0 <= x < post.ins_orig@.len() && #[trigger] post.ins_orig@[x] != NO_POINT implies row_of(post.ins_raw@, post.d as nat, x) == row_of(data, post.d as nat, post.ins_orig@[x] as int) by {
            if x < g {
                assert(pre.ins_orig@[x] != NO_POINT);
                assert(x * d + d <= g * d) by (nonlinear_arith)
                    requires
                        x < g,
                ;
                assert(0 <= x * d) by (nonlinear_arith)
                    requires
                        x >= 0,
                ;
                assert(row_of(post.ins_raw@, d, x) =~= row_of(pre.ins_raw@, d, x));
            } else {
                assert(x == g);
                assert(pre.ins_raw@.len() == g * d);
                assert(row_of(post.ins_raw@, d, g) =~= row);
            }
        }
    }
    if pre.lists_appended() && exists|i: int| 0 <= i < home.len() && #[trigger] home[i] < pre.nc() {
        let i = choose|i: int| 0 <= i < home.len() && #[trigger] home[i] < pre.nc();
        assert forall|x: int| 0 <= x < post.ins_orig@.len() && #[trigger] post.ins_orig@[x] != NO_POINT implies post.listed(x) by {
            if x < g {
                assert(pre.ins_orig@[x] != NO_POINT);
                let c = choose|c: u32| c < pre.nc() && (#[trigger] pre.ins_gidx@[c as int])@.contains(x as u32);
                let old_list = pre.ins_gidx@[c as int]@;
                let y = choose|y: int| 0 <= y < old_list.len() && old_list[y] == x as u32;
                assert(post.ins_gidx@[c as int]@[y] == x as u32);
                assert(post.ins_gidx@[c as int]@.contains(x as u32));
            } else {
                let c = home[i];
                assert(home.contains(c));
                let list = post.ins_gidx@[c as int]@;
                assert(list == pre.ins_gidx@[c as int]@.push(g as u32));
                assert(list[list.len() - 1] == g as u32);
                assert(list.contains(x as u32));
            }
        }
    }
}

/// A deletion takes its point away and no other; rows and lists stay in order.
pub proof fn law_deletion_takes_its_point<R: Router, C: Compressor>(pre: &Index<R, C>, post: &Index<R, C>, id: u32, data: Seq<i8>)
    requires
        pre.wf(),
        post.wf(),
        post.deleted(pre, id),
        id != NO_POINT,
    ensures
        post.alive() == pre.alive().remove(id),
        pre.reads(data) ==> post.reads(data),
        pre.reads_appended(data) ==> post.reads_appended(data),
        pre.lists_appended() ==> post.lists_appended(),
{
    let d = pre.d as nat;
    assert(post.alive() =~= pre.alive().remove(id)) by {
        assert forall|o: u32| post.alive().contains(o) == pre.alive().remove(id).contains(o) by {
            if o != NO_POINT && post.ins_orig@.contains(o) {
                let x = choose|x: int| 0 <= x < post.ins_orig@.len() && post.ins_orig@[x] == o;
                assert(pre.ins_orig@[x] == o);
            }
            if o != id && pre.ins_orig@.contains(o) {
                let x = choose|x: int| 0 <= x < pre.ins_orig@.len() && pre.ins_orig@[x] == o;
                assert(post.ins_orig@[x] == o);
            }
            if o != NO_POINT && post.slot_orig@.contains(o) {
                let x = choose|x: int| 0 <= x < post.slot_orig@.len() && post.slot_orig@[x] == o;
                assert(pre.slot_orig@[x] == o);
            }
            if o != id && pre.slot_orig@.contains(o) {
                let x = choose|x: int| 0 <= x < pre.slot_orig@.len() && pre.slot_orig@[x] == o;
                assert(post.slot_orig@[x] == o);
            }
        }
    }
    if pre.reads(data) {
        assert forall|s: int| 0 <= s < post.slot_orig@.len() && #[trigger] post.slot_orig@[s] != NO_POINT implies row_of(post.raw@, post.d as nat, row_index(post.slot_orig@, s as u32, post.raw_orig_indexed)) == row_of(data, post.d as nat, post.slot_orig@[s] as int) by {
            assert((s as u32) as int == s);
            assert(pre.slot_orig@[s] == post.slot_orig@[s]);
        }
    }
    if pre.reads_appended(data) {
        assert forall|x: int| 0 <= x < post.ins_orig@.len() && #[trigger] post.ins_orig@[x] != NO_POINT implies row_of(post.ins_raw@, post.d as nat, x) == row_of(data, post.d as nat, post.ins_orig@[x] as int) by {
            assert(pre.ins_orig@[x] == post.ins_orig@[x]);
        }
    }
    if pre.lists_appended() {
        assert forall|x: int| 0 <= x < post.ins_orig@.len() && #[trigger] post.ins_orig@[x] != NO_POINT implies post.listed(x) by {
            assert(pre.ins_orig@[x] == post.ins_orig@[x]);
            assert(pre.listed(x));
        }
    }
}

/// Encoding the append buffer moves no point.
pub proof fn law_encoding_moves_no_point<R: Router, C: Compressor>(pre: &Index<R, C>, post: &Index<R, C>, data: Seq<i8>)
    requires
        post.finalized(pre),
    ensures
        post.alive() == pre.alive(),
        post.reads(data) == pre.reads(data),
        post.reads_appended(data) == pre.reads_appended(data),
        post.lists_appended() == pre.lists_appended(),
{
    assert(post.lists_appended() == pre.lists_appended()) by {
        assert forall|g: int| post.listed(g) == pre.listed(g) by {
            assert(post.ins_gidx == pre.ins_gidx && post.nc() == pre.nc());
        }
    }
}

/// Of a list without repeated ids the first ones are taken.
proof fn lemma_distinct_of_distinct(s: Seq<(i32, u32)>, k: nat, n: nat)
    requires
        n <= s.len(),
        forall|i: int, j: int| 0 <= i < j < s.len() ==> (#[trigger] s[i]).1 != (#[trigger] s[j]).1,
    ensures
        distinct_ids(s, k, n) == first_ids(s.take(n as int), k),
    decreases n,
{
    let r = first_ids(s.take(n as int), k);
    if n == 0 {
        assert(r =~= Seq::<u32>::empty());
    } else {
        let m = (n - 1) as nat;
        lemma_distinct_of_distinct(s, k, m);
        let p = first_ids(s.take(m as int), k);
        let id = s[m as int].1;
        assert(!p.contains(id)) by {
            if p.contains(id) {
                let x = choose|x: int| 0 <= x < p.len() && p[x] == id;
                assert(s[x].1 != s[m as int].1);
            }
        }
        if p.len() >= k {
            assert(r =~= p);
        } else {
            assert(r =~= p.push(id));
        }
    }
}

/// Where nothing was appended, the search over both stores answers what the plain search answers.
pub proof fn law_untouched_stream_is_a_search<R: Router, C: Compressor>(ix: &Index<R, C>, q: Seq<i8>, data: Seq<i8>, cells: Seq<u32>, t: nat, k: nat, knobs: ScanKnobs)
    requires
        ix.ins_raw@.len() == 0,
    ensures
        ix.stream_found(q, data, cells, t, k, knobs) == ix.found(q, data, cells, t, k, (ScanKnobs { fused: false, sort_cells: false, ..knobs })),
{
    let d = ix.d as nat;
    let plain = ScanKnobs { fused: false, sort_cells: false, ..knobs };
    let pool = ix.survivors_of(ix.comp.prepared(q), q, data, cells, t, plain);
    let cands = rescored(pool, ix.slot_orig@, ix.raw@, d, q, ix.raw_orig_indexed, knobs.ip, pool.len());
    let b = rerank_list(pool, ix.slot_orig@, ix.raw@, d, q, ix.raw_orig_indexed, knobs.ip, k);
    if pool.len() > 0 && k > 0 {
        lemma_nearest(cands, (if 4 * k < pool.len() { 4 * k } else { pool.len() }) as nat, cands.len());
    }
    lemma_ascending_of_sorted(b);
    lemma_distinct_of_distinct(b, k, b.len());
    assert(b.take(b.len() as int) =~= b);
    assert(b == ix.built_best(q, data, cells, t, k, knobs));
}

} // verus!
