//! What a search answers: the nearest points of its survivors, and of all points where it leaves
//! none out.

use crate::compress::{Compressor, QueryCtx};
use crate::fused::lane_pool;
use crate::ibin::I8Bin;
use crate::index::{cell_owning, lemma_cell_owning, Index, ScanKnobs};
use crate::layout::{cell_slots, law_every_assignment_is_stored, members, padded, slot_row, Cells};
use crate::order::{ascending, lemma_ascending, lemma_smallest_all, smallest, sorted};
use crate::rerank::{
    copies_agree, deduped, law_dedup_keeps_the_best_of_each_point, law_nearest_holds_the_nearest, lemma_rescored_has_one_score,
    lemma_score_fits, lists, nearest, rescored, reranked, row_index, slots_exist, NO_POINT,
};
use crate::router::{ids_of, Router};
use crate::scan::{gathered, shifted};
use crate::search::{lemma_slots_ignore_order, live_slots, slots_in};
use crate::simd::{dot, l2, row_of};
use vstd::prelude::*;

verus! {

/// The exact score of point `o`: the negated inner product of its row with the query, or its squared
/// distance from it.
pub open spec fn exact(ip: bool, q: Seq<i8>, data: Seq<i8>, d: nat, o: u32) -> int {
    if ip {
        -dot(q, row_of(data, d, o as int))
    } else {
        l2(q, row_of(data, d, o as int))
    }
}

/// `r` lists the `k` best of `points`, best first, each once; where there are fewer, all of them.
pub open spec fn best_of(r: Seq<u32>, k: nat, points: Set<u32>, ip: bool, q: Seq<i8>, data: Seq<i8>, d: nat) -> bool {
    &&& r.len() <= k
    &&& r.no_duplicates()
    &&& forall|i: int| 0 <= i < r.len() ==> points.contains(#[trigger] r[i])
    &&& forall|i: int, j: int| 0 <= i <= j < r.len() ==> exact(ip, q, data, d, #[trigger] r[i]) <= exact(ip, q, data, d, #[trigger] r[j])
    &&& forall|o: u32| #[trigger] points.contains(o) ==> r.contains(o) || (r.len() == k && (k > 0 ==> exact(ip, q, data, d, r.last()) <= exact(ip, q, data, d, o)))
}

/// The points that a pool of `(score, slot)` names.
pub open spec fn named(pool: Seq<(i32, u32)>, slot_orig: Seq<u32>) -> Set<u32> {
    Set::new(|o: u32| names(pool, slot_orig, o))
}

/// A candidate of the pool holds the point.
pub open spec fn names(pool: Seq<(i32, u32)>, slot_orig: Seq<u32>, o: u32) -> bool {
    exists|i: int| 0 <= i < pool.len() && slot_orig[(#[trigger] pool[i]).1 as int] == o
}

/// The points that an index holds.
pub open spec fn held(slot_orig: Seq<u32>) -> Set<u32> {
    Set::new(|o: u32| o != NO_POINT && slot_orig.contains(o))
}

impl<R: Router, C: Compressor> Index<R, C> {
    /// The row that the rerank reads for a slot is that of its point.
    pub open spec fn reads(&self, data: Seq<i8>) -> bool {
        forall|s: int|
            0 <= s < self.slot_orig@.len() && #[trigger] self.slot_orig@[s] != NO_POINT ==> row_of(self.raw@, self.d as nat, row_index(self.slot_orig@, s as u32, self.raw_orig_indexed)) == row_of(data, self.d as nat, self.slot_orig@[s] as int)
    }
}

/// Rescoring keeps the points of the pool, and no others, each with its exact score.
proof fn lemma_rescored_names(pool: Seq<(i32, u32)>, slot_orig: Seq<u32>, raw: Seq<i8>, d: nat, q: Seq<i8>, by_orig: bool, ip: bool, n: nat, data: Seq<i8>)
    requires
        n <= pool.len(),
        live_slots(pool, slot_orig),
        q.len() == d,
        d <= crate::simd::L2_DIM,
        forall|s: int| 0 <= s < slot_orig.len() && #[trigger] slot_orig[s] != NO_POINT ==> row_of(raw, d, row_index(slot_orig, s as u32, by_orig)) == row_of(data, d, slot_orig[s] as int),
    ensures
        ({
            let c = rescored(pool, slot_orig, raw, d, q, by_orig, ip, n);
            &&& c.len() == n
            &&& forall|i: int| 0 <= i < n ==> (#[trigger] c[i]).1 == slot_orig[pool[i].1 as int] && c[i].0 == exact(ip, q, data, d, c[i].1)
        }),
    decreases n,
{
    if n > 0 {
        lemma_rescored_names(pool, slot_orig, raw, d, q, by_orig, ip, (n - 1) as nat, data);
        let slot = pool[n - 1].1;
        assert(slot < slot_orig.len() && slot_orig[slot as int] != NO_POINT);
        assert((slot as int) as u32 == slot);
        lemma_score_fits(ip, q, row_of(raw, d, row_index(slot_orig, slot, by_orig)));
    }
}

/// A list of `m` distinct ids out of no more than `m` candidates leaves none out.
proof fn lemma_full_list(h: Seq<(i32, u32)>, cands: Seq<(i32, u32)>, id: u32)
    requires
        h.len() >= cands.len(),
        forall|i: int, j: int| 0 <= i < j < h.len() ==> (#[trigger] h[i]).1 != (#[trigger] h[j]).1,
        forall|i: int| 0 <= i < h.len() ==> cands.contains(#[trigger] h[i]),
        lists(cands, id),
    ensures
        lists(h, id),
{
    if !lists(h, id) {
        let a = ids_of(h).push(id);
        let b = ids_of(cands);
        assert(a.no_duplicates()) by {
            assert forall|i: int, j: int| 0 <= i < a.len() && 0 <= j < a.len() && i != j implies a[i] != a[j] by {
                if i < h.len() && j < h.len() {
                    if i < j {
                        assert(h[i].1 != h[j].1);
                    } else {
                        assert(h[j].1 != h[i].1);
                    }
                } else if i < h.len() {
                    assert(h[i].1 != id);
                } else {
                    assert(h[j].1 != id);
                }
            }
        }
        a.unique_seq_to_set();
        b.lemma_cardinality_of_set();
        assert(a.to_set().subset_of(b.to_set())) by {
            assert forall|x: u32| a.to_set().contains(x) implies b.to_set().contains(x) by {
                let i = choose|i: int| 0 <= i < a.len() && a[i] == x;
                if i < h.len() {
                    assert(cands.contains(h[i]));
                    let j = choose|j: int| 0 <= j < cands.len() && cands[j] == h[i];
                    assert(b[j] == x);
                } else {
                    let j = choose|j: int| 0 <= j < cands.len() && (#[trigger] cands[j]).1 == id;
                    assert(b[j] == x);
                }
            }
        }
        vstd::seq_lib::seq_to_set_is_finite(b);
        vstd::set_lib::lemma_len_subset(a.to_set(), b.to_set());
    }
}

/// The list that the rerank of a pool keeps.
pub open spec fn rerank_list(pool: Seq<(i32, u32)>, orig: Seq<u32>, raw: Seq<i8>, d: nat, q: Seq<i8>, by: bool, ip: bool, k: nat) -> Seq<(i32, u32)> {
    nearest(
        rescored(pool, orig, raw, d, q, by, ip, pool.len()),
        (if 4 * k < pool.len() {
            4 * k
        } else {
            pool.len()
        }) as nat,
    )
}

/// What the rerank of a pool keeps: distinct points of the pool with their exact scores, in order;
/// all of them, or `4 * k` that are no worse than any that is left out.
pub proof fn lemma_rerank_keeps(pool: Seq<(i32, u32)>, orig: Seq<u32>, raw: Seq<i8>, d: nat, q: Seq<i8>, by: bool, ip: bool, data: Seq<i8>, k: nat)
    requires
        live_slots(pool, orig),
        q.len() == d,
        d <= crate::simd::L2_DIM,
        orig.len() <= u32::MAX,
        k > 0,
        forall|s: int| 0 <= s < orig.len() && #[trigger] orig[s] != NO_POINT ==> row_of(raw, d, row_index(orig, s as u32, by)) == row_of(data, d, orig[s] as int),
    ensures
        ({
            let h = rerank_list(pool, orig, raw, d, q, by, ip, k);
            &&& sorted(h)
            &&& forall|i: int, j: int| 0 <= i < j < h.len() ==> (#[trigger] h[i]).1 != (#[trigger] h[j]).1
            &&& forall|i: int| 0 <= i < h.len() ==> (#[trigger] h[i]).0 == exact(ip, q, data, d, h[i].1) && names(pool, orig, h[i].1)
            &&& forall|o: u32| #[trigger] names(pool, orig, o) ==> lists(h, o) || (h.len() == 4 * k && h.last().0 <= exact(ip, q, data, d, o))
        }),
{
    let cands = rescored(pool, orig, raw, d, q, by, ip, pool.len());
    let m = (if 4 * k < pool.len() {
        4 * k
    } else {
        pool.len()
    }) as nat;
    let h = nearest(cands, m);
    lemma_rescored_names(pool, orig, raw, d, q, by, ip, pool.len(), data);
    if m > 0 {
        assert(copies_agree(orig, raw, d, by)) by {
            assert forall|a: int, b: int|
                0 <= a < orig.len() && 0 <= b < orig.len() && a <= u32::MAX && b <= u32::MAX && #[trigger] orig[a] == #[trigger] orig[b] && orig[a] != NO_POINT implies row_of(raw, d, row_index(orig, a as u32, by)) == row_of(raw, d, row_index(orig, b as u32, by)) by {
            }
        }
        assert(slots_exist(pool, orig));
        lemma_rescored_has_one_score(pool, orig, raw, d, q, by, ip, pool.len());
        law_nearest_holds_the_nearest(cands, m);
        assert forall|i: int| 0 <= i < h.len() implies (#[trigger] h[i]).0 == exact(ip, q, data, d, h[i].1) && names(pool, orig, h[i].1) by {
            assert(cands.contains(h[i]));
            let c = choose|c: int| 0 <= c < cands.len() && cands[c] == h[i];
            assert(orig[pool[c].1 as int] == h[i].1);
        }
    }
    assert forall|o: u32| #[trigger] names(pool, orig, o) implies lists(h, o) || (h.len() == 4 * k && h.last().0 <= exact(ip, q, data, d, o)) by {
        let p = choose|p: int| 0 <= p < pool.len() && orig[(#[trigger] pool[p]).1 as int] == o;
        assert(cands[p].1 == o);
        assert(lists(cands, o));
        if !lists(h, o) {
            assert(h.len() == m && cands[p].0 >= h.last().0);
            if m == pool.len() {
                lemma_full_list(h, cands, o);
            }
        }
    }
}

/// The first `k` of what the rerank of a pool keeps are the best of its points.
pub proof fn lemma_reranked_best(pool: Seq<(i32, u32)>, orig: Seq<u32>, raw: Seq<i8>, d: nat, q: Seq<i8>, by: bool, ip: bool, data: Seq<i8>, k: nat)
    requires
        live_slots(pool, orig),
        q.len() == d,
        d <= crate::simd::L2_DIM,
        orig.len() <= u32::MAX,
        forall|s: int| 0 <= s < orig.len() && #[trigger] orig[s] != NO_POINT ==> row_of(raw, d, row_index(orig, s as u32, by)) == row_of(data, d, orig[s] as int),
    ensures
        best_of(reranked(pool, orig, raw, d, q, by, ip, k), k, named(pool, orig), ip, q, data, d),
{
    let r = reranked(pool, orig, raw, d, q, by, ip, k);
    let points = named(pool, orig);
    if k > 0 {
        let h = rerank_list(pool, orig, raw, d, q, by, ip, k);
        lemma_rerank_keeps(pool, orig, raw, d, q, by, ip, data, k);
        assert forall|i: int| 0 <= i < r.len() implies points.contains(#[trigger] r[i]) by {
            assert(h[i].1 == r[i]);
            assert(names(pool, orig, h[i].1));
        }
        assert(r.no_duplicates()) by {
            assert forall|i: int, j: int| 0 <= i < r.len() && 0 <= j < r.len() && i != j implies r[i] != r[j] by {
                if i < j {
                    assert(h[i].1 != h[j].1);
                } else {
                    assert(h[j].1 != h[i].1);
                }
            }
        }
        assert forall|i: int, j: int| 0 <= i <= j < r.len() implies exact(ip, q, data, d, #[trigger] r[i]) <= exact(ip, q, data, d, #[trigger] r[j]) by {
            assert(crate::order::Ranked::le(h[i], h[j]));
            assert(h[i].0 == exact(ip, q, data, d, h[i].1) && h[j].0 == exact(ip, q, data, d, h[j].1));
        }
        assert forall|o: u32| #[trigger] points.contains(o) implies r.contains(o) || (r.len() == k && exact(ip, q, data, d, r.last()) <= exact(ip, q, data, d, o)) by {
            assert(names(pool, orig, o));
            if lists(h, o) {
                let x = choose|x: int| 0 <= x < h.len() && (#[trigger] h[x]).1 == o;
                if x < k {
                    assert(r[x] == o);
                } else {
                    assert(crate::order::Ranked::le(h[k - 1], h[x]));
                    assert(r.last() == h[k - 1].1);
                    assert(h[k - 1].0 == exact(ip, q, data, d, h[k - 1].1) && h[x].0 == exact(ip, q, data, d, h[x].1));
                }
            } else {
                assert(r.last() == h[k - 1].1);
                assert(crate::order::Ranked::le(h[k - 1], h[h.len() - 1]));
                assert(h[k - 1].0 == exact(ip, q, data, d, h[k - 1].1));
            }
        }
    }
}

/// The exact rerank of a pool answers the best of its points.
pub proof fn law_rerank_answers_the_best<R: Router, C: Compressor>(ix: &Index<R, C>, pool: Seq<(i32, u32)>, q: Seq<i8>, data: Seq<i8>, ip: bool, k: nat)
    requires
        ix.main_ok(),
        ix.reads(data),
        q.len() == ix.d,
        live_slots(pool, ix.slot_orig@),
    ensures
        best_of(reranked(pool, ix.slot_orig@, ix.raw@, ix.d as nat, q, ix.raw_orig_indexed, ip, k), k, named(pool, ix.slot_orig@), ip, q, data, ix.d as nat),
{
    lemma_reranked_best(pool, ix.slot_orig@, ix.raw@, ix.d as nat, q, ix.raw_orig_indexed, ip, data, k);
}

/// A search answers the best of the points that survive its scan.
pub proof fn law_search_answers_the_best_survivors<R: Router, C: Compressor>(ix: &Index<R, C>, q: Seq<i8>, data: Seq<i8>, cells: Seq<u32>, t: nat, k: nat, knobs: ScanKnobs)
    requires
        ix.main_ok(),
        ix.reads(data),
        q.len() == ix.d,
        ix.cells_exist(cells),
    ensures
        best_of(ix.found(q, data, cells, t, k, knobs), k, named(ix.survivors_of(ix.comp.prepared(q), q, data, cells, t, knobs), ix.slot_orig@), knobs.ip, q, data, ix.d as nat),
{
    let ctx = ix.comp.prepared(q);
    ix.lemma_survivors_live(ctx, q, data, cells, t, knobs);
    law_rerank_answers_the_best(ix, ix.survivors_of(ctx, q, data, cells, t, knobs), q, data, knobs.ip, k);
}

/// A lane whose slot holds a point is a candidate.
proof fn lemma_lane_listed(out: Seq<i32>, base: nat, slot_orig: Seq<u32>, n: nat, i: int)
    requires
        0 <= i < n,
        base + n <= u32::MAX,
        slot_orig[base + i] != NO_POINT,
    ensures
        lists(lane_pool(out, base, slot_orig, n), (base + i) as u32),
    decreases n,
{
    let p = lane_pool(out, base, slot_orig, n);
    if i == n - 1 {
        assert(p[p.len() - 1].1 == (base + i) as u32);
    } else {
        lemma_lane_listed(out, base, slot_orig, (n - 1) as nat, i);
        let prev = lane_pool(out, base, slot_orig, (n - 1) as nat);
        let x = choose|x: int| 0 <= x < prev.len() && (#[trigger] prev[x]).1 == (base + i) as u32;
        assert(p[x] == prev[x]);
    }
}

/// What a visited cell offers is gathered.
proof fn lemma_gathered_lists(f: spec_fn(u32) -> Seq<(i32, u32)>, cells: Seq<u32>, i: int, slot: u32)
    requires
        0 <= i < cells.len(),
        lists(f(cells[i]), slot),
    ensures
        lists(gathered(f, cells), slot),
    decreases cells.len(),
{
    let all = gathered(f, cells);
    let rest = gathered(f, cells.drop_last());
    let tail = f(cells.last());
    if i == cells.len() - 1 {
        let x = choose|x: int| 0 <= x < tail.len() && (#[trigger] tail[x]).1 == slot;
        assert(all[rest.len() + x] == tail[x]);
    } else {
        lemma_gathered_lists(f, cells.drop_last(), i, slot);
        let x = choose|x: int| 0 <= x < rest.len() && (#[trigger] rest[x]).1 == slot;
        assert(all[x] == rest[x]);
    }
}

/// Every slot with a point is a candidate of a scan that visits all cells.
proof fn lemma_all_cells_list<R: Router, C: Compressor>(ix: &Index<R, C>, ctx: QueryCtx, q: Seq<i8>, data: Seq<i8>, cells: Seq<u32>, s: int)
    requires
        ix.main_ok(),
        forall|c: u32| c < ix.nc() ==> cells.contains(c),
        ix.nc() <= u32::MAX,
        0 <= s < ix.slot_orig@.len(),
        ix.slot_orig@[s] != NO_POINT,
    ensures
        lists(ix.pool_of(ctx, q, data, cells), s as u32),
        lists(ix.plain_pool(ctx, q, data, cells), s as u32),
{
    let b = ix.cell_bstart@;
    let c = cell_owning(b, ix.nc(), s / 16);
    lemma_cell_owning(b, ix.nc(), s / 16);
    let base = (16 * b[c]) as nat;
    let n = (16 * (b[c + 1] - b[c])) as nat;
    ix.lemma_cell_range(c);
    lemma_lane_listed(ix.cell_scores(ctx, q, data, c), base, ix.slot_orig@, n, s - base);
    let lanes = ix.cell_lanes(ctx, q, data, c);
    assert(lists(lanes, s as u32));
    assert(cells.contains(c as u32));
    let i = choose|i: int| 0 <= i < cells.len() && cells[i] == c as u32;
    assert(ix.plain_lanes(ctx, q, data)(cells[i]) == lanes);
    lemma_gathered_lists(ix.plain_lanes(ctx, q, data), cells, i, s as u32);
    let moved = shifted(lanes, ix.offset_of(ctx, q, c));
    assert(lists(moved, s as u32)) by {
        let x = choose|x: int| 0 <= x < lanes.len() && (#[trigger] lanes[x]).1 == s as u32;
        assert(moved[x].1 == lanes[x].1);
    }
    assert(ix.shifted_lanes(ctx, q, data)(cells[i]) == moved);
    lemma_gathered_lists(ix.shifted_lanes(ctx, q, data), cells, i, s as u32);
}

/// A cap that is no smaller than the pool lists what the pool lists.
proof fn lemma_wide_cap_lists(pool: Seq<(i32, u32)>, t: nat, slot: u32)
    requires
        lists(pool, slot),
        t >= pool.len(),
    ensures
        lists(smallest(pool, t), slot),
{
    broadcast use vstd::seq_lib::group_to_multiset_ensures;

    lemma_smallest_all(pool, t);
    lemma_ascending(pool);
    let x = choose|x: int| 0 <= x < pool.len() && (#[trigger] pool[x]).1 == slot;
    let a = ascending(pool);
    assert(pool.contains(pool[x]));
    assert(pool.to_multiset().contains(pool[x]));
    assert(a.to_multiset().contains(pool[x]));
    assert(a.contains(pool[x]));
    let y = choose|y: int| 0 <= y < a.len() && a[y] == pool[x];
    assert(a[y].1 == slot);
}

/// Sorting a list of cells changes neither which cells it names nor how many slots they have.
proof fn lemma_sorted_cells(bstart: Seq<u32>, cells: Seq<u32>)
    ensures
        slots_in(bstart, ascending(cells)) == slots_in(bstart, cells),
        forall|c: u32| #[trigger] ascending(cells).contains(c) == cells.contains(c),
{
    broadcast use vstd::seq_lib::group_to_multiset_ensures;

    lemma_ascending(cells);
    lemma_slots_ignore_order(bstart, ascending(cells), cells);
    assert forall|c: u32| #[trigger] ascending(cells).contains(c) == cells.contains(c) by {
        assert(ascending(cells).to_multiset().contains(c) == cells.to_multiset().contains(c));
    }
}

/// Reducing a pool to one candidate per point forgets no point.
pub proof fn lemma_deduped_names(pool: Seq<(i32, u32)>, slot_orig: Seq<u32>, o: u32)
    requires
        live_slots(pool, slot_orig),
        names(pool, slot_orig, o),
    ensures
        names(deduped(pool, slot_orig), slot_orig, o),
{
    assert(slots_exist(pool, slot_orig));
    law_dedup_keeps_the_best_of_each_point(pool, slot_orig);
    let p = choose|p: int| 0 <= p < pool.len() && slot_orig[(#[trigger] pool[p]).1 as int] == o;
    let r = deduped(pool, slot_orig);
    assert(slot_orig[pool[p].1 as int] == o);
    let y = choose|y: int| 0 <= y < r.len() && slot_orig[(#[trigger] r[y]).1 as int] == slot_orig[pool[p].1 as int] && r[y].0 <= pool[p].0;
    assert(slot_orig[r[y].1 as int] == o);
}

/// A cap that is no smaller than the pool forgets no point.
pub proof fn lemma_wide_cap_names(pool: Seq<(i32, u32)>, t: nat, slot_orig: Seq<u32>, o: u32)
    requires
        names(pool, slot_orig, o),
        t >= pool.len(),
    ensures
        names(smallest(pool, t), slot_orig, o),
{
    let p = choose|p: int| 0 <= p < pool.len() && slot_orig[(#[trigger] pool[p]).1 as int] == o;
    assert(lists(pool, pool[p].1));
    lemma_wide_cap_lists(pool, t, pool[p].1);
    let r = smallest(pool, t);
    let x = choose|x: int| 0 <= x < r.len() && (#[trigger] r[x]).1 == pool[p].1;
    assert(slot_orig[r[x].1 as int] == o);
}

proof fn lemma_listed_names(pool: Seq<(i32, u32)>, slot_orig: Seq<u32>, slot: u32)
    requires
        lists(pool, slot),
    ensures
        names(pool, slot_orig, slot_orig[slot as int]),
{
    let x = choose|x: int| 0 <= x < pool.len() && (#[trigger] pool[x]).1 == slot;
    assert(slot_orig[pool[x].1 as int] == slot_orig[slot as int]);
}

/// A scan of every cell with a cap that drops no one keeps every point of the index.
pub proof fn lemma_full_scan_keeps_all<R: Router, C: Compressor>(ix: &Index<R, C>, ctx: QueryCtx, q: Seq<i8>, data: Seq<i8>, cells: Seq<u32>, t: nat, knobs: ScanKnobs, o: u32)
    requires
        ix.main_ok(),
        ix.cells_exist(cells),
        forall|c: u32| c < ix.nc() ==> cells.contains(c),
        ix.nc() <= u32::MAX,
        t >= slots_in(ix.cell_bstart@, cells) || (t == 0 && !ix.fuses(knobs)),
        held(ix.slot_orig@).contains(o),
    ensures
        names(ix.survivors_of(ctx, q, data, cells, t, knobs), ix.slot_orig@, o),
{
    let orig = ix.slot_orig@;
    let visited = if knobs.sort_cells {
        ascending(cells)
    } else {
        cells
    };
    lemma_sorted_cells(ix.cell_bstart@, cells);
    assert(ix.cells_exist(visited)) by {
        assert forall|i: int| 0 <= i < visited.len() implies #[trigger] visited[i] < ix.nc() by {
            assert(visited.contains(visited[i]));
            assert(cells.contains(visited[i]));
            let j = choose|j: int| 0 <= j < cells.len() && cells[j] == visited[i];
            assert(cells[j] < ix.nc());
        }
    }
    assert forall|c: u32| c < ix.nc() implies visited.contains(c) by {
        assert(cells.contains(c));
        assert(ascending(cells).contains(c));
    }
    ix.lemma_pool_live(ctx, q, data, visited);
    let s = choose|s: int| 0 <= s < orig.len() && orig[s] == o;
    lemma_all_cells_list(ix, ctx, q, data, visited, s);
    let plain = ix.plain_pool(ctx, q, data, visited);
    let pool = ix.pool_of(ctx, q, data, visited);
    lemma_listed_names(plain, orig, s as u32);
    lemma_listed_names(pool, orig, s as u32);
    if ix.fuses(knobs) {
        lemma_wide_cap_names(plain, t, orig, o);
    } else {
        lemma_deduped_names(pool, orig, o);
        crate::rerank::lemma_pool_pass(pool, orig, pool.len());
        let kept = if ix.dedups(knobs) {
            deduped(pool, orig)
        } else {
            pool
        };
        assert(kept.len() <= pool.len());
        if t > 0 {
            lemma_wide_cap_names(kept, t, orig, o);
        }
    }
}

/// A search that visits every cell and caps nothing is exact: it answers the `k` best of all points
/// that the index holds.
pub proof fn law_exhaustive_search_is_exact<R: Router, C: Compressor>(ix: &Index<R, C>, q: Seq<i8>, data: Seq<i8>, cells: Seq<u32>, t: nat, k: nat, knobs: ScanKnobs)
    requires
        ix.main_ok(),
        ix.reads(data),
        q.len() == ix.d,
        ix.cells_exist(cells),
        forall|c: u32| c < ix.nc() ==> cells.contains(c),
        ix.nc() <= u32::MAX,
        t >= slots_in(ix.cell_bstart@, cells) || (t == 0 && !ix.fuses(knobs)),
    ensures
        best_of(ix.found(q, data, cells, t, k, knobs), k, held(ix.slot_orig@), knobs.ip, q, data, ix.d as nat),
{
    let ctx = ix.comp.prepared(q);
    let pool = ix.survivors_of(ctx, q, data, cells, t, knobs);
    let orig = ix.slot_orig@;
    law_search_answers_the_best_survivors(ix, q, data, cells, t, k, knobs);
    ix.lemma_survivors_live(ctx, q, data, cells, t, knobs);
    assert(named(pool, orig) =~= held(orig)) by {
        assert forall|o: u32| named(pool, orig).contains(o) == held(orig).contains(o) by {
            if names(pool, orig, o) {
                let p = choose|p: int| 0 <= p < pool.len() && orig[(#[trigger] pool[p]).1 as int] == o;
                assert(orig[pool[p].1 as int] == o);
            }
            if held(orig).contains(o) {
                lemma_full_scan_keeps_all(ix, ctx, q, data, cells, t, knobs, o);
            }
        }
    }
}

/// A freshly built index holds every point of its data and reads the data's rows.
pub proof fn law_built_index_holds_every_point<R: Router, C: Compressor>(ix: &Index<R, C>, ds: &I8Bin<'_>, cells: Cells, assign: Seq<u32>, a0: nat, cents: Seq<i8>)
    requires
        ix.main_ok(),
        ix.rows_in(ds),
        ix.d == ds.d,
        cells == (Cells { bstart: ix.cell_bstart, slot_orig: ix.slot_orig, blocks: ix.blocks }),
        cells.hold(&ix.comp, ds.data@, ds.d as nat, assign, a0, ix.nc(), cents),
        a0 >= 1,
        assign.len() == ds.nb * a0,
        assign.len() <= u32::MAX,
        forall|i: int| 0 <= i < assign.len() ==> #[trigger] assign[i] < ix.nc(),
        ix.raw_orig_indexed ==> ix.raw@ == ds.data@,
        !ix.raw_orig_indexed ==> forall|s: int| 0 <= s < ix.slot_orig@.len() ==> #[trigger] row_of(ix.raw@, ds.d as nat, s) == slot_row(ix.slot_orig@, ds.data@, ds.d as nat, s),
    ensures
        ix.reads(ds.data@),
        forall|o: u32| #[trigger] held(ix.slot_orig@).contains(o) <==> o < ds.nb && o != NO_POINT,
{
    let orig = ix.slot_orig@;
    assert forall|s: int| 0 <= s < orig.len() && #[trigger] orig[s] != NO_POINT implies row_of(ix.raw@, ix.d as nat, row_index(orig, s as u32, ix.raw_orig_indexed)) == row_of(ds.data@, ix.d as nat, orig[s] as int) by {
        assert((s as u32) as int == s);
        if !ix.raw_orig_indexed {
            assert(row_of(ix.raw@, ds.d as nat, s) == slot_row(orig, ds.data@, ds.d as nat, s));
        }
    }
    assert forall|o: u32| o < ds.nb && o != NO_POINT implies #[trigger] held(orig).contains(o) by {
        let i = (o as nat * a0) as nat;
        assert(i < assign.len() && i / a0 == o) by {
            assert(o as nat * a0 + a0 <= ds.nb * a0) by (nonlinear_arith)
                requires
                    o < ds.nb,
            ;
            vstd::arithmetic::div_mod::lemma_div_by_multiple(o as int, a0 as int);
        }
        law_every_assignment_is_stored(assign, a0, ix.nc(), i);
        let c = assign[i as int] as int;
        let pts = members(assign, a0, c, assign.len());
        let at = members(assign, a0, c, i).len() as int;
        assert(pts[at] == o);
        assert(cell_slots(ix.cell_bstart@, orig, c) == padded(pts));
        ix.lemma_cell_range(c);
        let slots = cell_slots(ix.cell_bstart@, orig, c);
        assert(padded(pts)[at] == o);
        assert(slots[at] == orig[16 * ix.cell_bstart@[c] + at]);
        assert(orig.contains(o));
    }
    assert forall|o: u32| #[trigger] held(orig).contains(o) implies o < ds.nb && o != NO_POINT by {
        let s = choose|s: int| 0 <= s < orig.len() && orig[s] == o;
        assert(orig[s] < ds.nb || orig[s] == NO_POINT);
    }
}

} // verus!
