//! Searches whose answers may differ only in which of equally near points they name.

use crate::adaptive::by_point;
use crate::compress::{Compressor, QueryCtx};
use crate::index::{Index, ScanKnobs};
use crate::order::{ascending, lemma_ascending, lemma_ascending_ignores_order, lemma_smallest, place, smallest, sorted, Ranked};
use crate::rerank::{deduped, lemma_pool_pass, lists, rescored, row_index, scored_ids, slots_exist, NO_POINT};
use crate::router::Router;
use crate::scan::{lemma_gathered_ignores_order, shifted};
use crate::search::{capped, lemma_slots_ignore_order, live_slots, slots_in};
use crate::simd::row_of;
use crate::truth::{best_of, exact, law_rerank_answers_the_best, lemma_deduped_names, lemma_reranked_best, lemma_wide_cap_names, named, names};
use vstd::prelude::*;

verus! {

/// Two answers name points with the same exact scores, in the same order.
pub open spec fn score_alike(a: Seq<u32>, b: Seq<u32>, ip: bool, q: Seq<i8>, data: Seq<i8>, d: nat) -> bool {
    &&& a.len() == b.len()
    &&& forall|i: int| 0 <= i < a.len() ==> exact(ip, q, data, d, #[trigger] a[i]) == exact(ip, q, data, d, b[i])
}

/// A list of the best holds, up to any place of another such list, a score that is no worse.
proof fn lemma_no_worse(a: Seq<u32>, b: Seq<u32>, k: nat, points: Set<u32>, ip: bool, q: Seq<i8>, data: Seq<i8>, d: nat, i: int)
    requires
        best_of(a, k, points, ip, q, data, d),
        best_of(b, k, points, ip, q, data, d),
        0 <= i < a.len(),
    ensures
        i < b.len(),
        exact(ip, q, data, d, b[i]) <= exact(ip, q, data, d, a[i]),
{
    let head = a.take(i + 1);
    let other = b.take(if i < b.len() {
        i
    } else {
        b.len() as int
    });
    assert(head.no_duplicates());
    assert(other.no_duplicates());
    head.unique_seq_to_set();
    other.unique_seq_to_set();
    vstd::seq_lib::seq_to_set_is_finite(head);
    vstd::seq_lib::seq_to_set_is_finite(other);
    if head.to_set().subset_of(other.to_set()) {
        vstd::set_lib::lemma_len_subset(head.to_set(), other.to_set());
    }
    let x = choose|x: u32| head.to_set().contains(x) && !other.to_set().contains(x);
    assert(head.contains(x));
    let at = choose|at: int| 0 <= at < head.len() && head[at] == x;
    assert(a[at] == x);
    assert(points.contains(a[at]));
    assert(exact(ip, q, data, d, a[at]) <= exact(ip, q, data, d, a[i]));
    if b.contains(x) {
        let y = choose|y: int| 0 <= y < b.len() && b[y] == x;
        if y < other.len() {
            assert(other[y] == x);
        }
        assert(exact(ip, q, data, d, b[i]) <= exact(ip, q, data, d, b[y]));
    } else {
        assert(b.len() == k);
        assert(exact(ip, q, data, d, b[i]) <= exact(ip, q, data, d, b[k - 1]));
    }
}

/// The exact scores of an answer are determined: two lists of the `k` best of the same points differ
/// only in which of equally good points they name.
pub proof fn law_best_lists_score_alike(a: Seq<u32>, b: Seq<u32>, k: nat, points: Set<u32>, ip: bool, q: Seq<i8>, data: Seq<i8>, d: nat)
    requires
        best_of(a, k, points, ip, q, data, d),
        best_of(b, k, points, ip, q, data, d),
    ensures
        score_alike(a, b, ip, q, data, d),
{
    if a.len() > 0 {
        lemma_no_worse(a, b, k, points, ip, q, data, d, a.len() - 1);
    }
    if b.len() > 0 {
        lemma_no_worse(b, a, k, points, ip, q, data, d, b.len() - 1);
    }
    assert forall|i: int| 0 <= i < a.len() implies exact(ip, q, data, d, #[trigger] a[i]) == exact(ip, q, data, d, b[i]) by {
        lemma_no_worse(a, b, k, points, ip, q, data, d, i);
        lemma_no_worse(b, a, k, points, ip, q, data, d, i);
    }
}

/// The offsets of cells change no slot of a pool.
proof fn lemma_same_slots<R: Router, C: Compressor>(ix: &Index<R, C>, ctx: QueryCtx, q: Seq<i8>, data: Seq<i8>, cells: Seq<u32>)
    ensures
        ix.pool_of(ctx, q, data, cells).len() == ix.plain_pool(ctx, q, data, cells).len(),
        forall|i: int| 0 <= i < ix.plain_pool(ctx, q, data, cells).len() ==> (#[trigger] ix.pool_of(ctx, q, data, cells)[i]).1 == ix.plain_pool(ctx, q, data, cells)[i].1,
    decreases cells.len(),
{
    if cells.len() > 0 {
        let rest = cells.drop_last();
        lemma_same_slots(ix, ctx, q, data, rest);
        let c = cells.last();
        let lanes = ix.cell_lanes(ctx, q, data, c as int);
        let moved = shifted(lanes, ix.offset_of(ctx, q, c as int));
        assert(ix.shifted_lanes(ctx, q, data)(c) == moved);
        assert(ix.plain_lanes(ctx, q, data)(c) == lanes);
        let (a, b) = (ix.pool_of(ctx, q, data, rest), ix.plain_pool(ctx, q, data, rest));
        assert(ix.pool_of(ctx, q, data, cells) == a + moved);
        assert(ix.plain_pool(ctx, q, data, cells) == b + lanes);
        assert forall|i: int| 0 <= i < (b + lanes).len() implies (#[trigger] (a + moved)[i]).1 == (b + lanes)[i].1 by {
            if i < a.len() {
                assert(a[i].1 == b[i].1);
            } else {
                assert(moved[i - a.len()].1 == lanes[i - a.len()].1);
            }
        }
    }
}

/// A pool in another order names the same points.
proof fn lemma_order_names(a: Seq<(i32, u32)>, b: Seq<(i32, u32)>, slot_orig: Seq<u32>, o: u32)
    requires
        a.to_multiset() == b.to_multiset(),
        names(a, slot_orig, o),
    ensures
        names(b, slot_orig, o),
{
    broadcast use vstd::seq_lib::group_to_multiset_ensures;

    let i = choose|i: int| 0 <= i < a.len() && slot_orig[(#[trigger] a[i]).1 as int] == o;
    assert(a.contains(a[i]));
    assert(a.to_multiset().contains(a[i]));
    assert(b.to_multiset().contains(a[i]));
    assert(b.contains(a[i]));
    let j = choose|j: int| 0 <= j < b.len() && b[j] == a[i];
    assert(slot_orig[b[j].1 as int] == o);
}

/// What the best of a pool name, the pool names.
proof fn lemma_capped_names(pool: Seq<(i32, u32)>, t: nat, slot_orig: Seq<u32>, o: u32)
    requires
        names(capped(pool, t), slot_orig, o),
    ensures
        names(pool, slot_orig, o),
{
    lemma_smallest(pool, t);
    let r = capped(pool, t);
    let i = choose|i: int| 0 <= i < r.len() && slot_orig[(#[trigger] r[i]).1 as int] == o;
    assert(pool.contains(r[i])) by {
        if t == 0 {
            assert(pool[i] == r[i]);
        }
    }
    let j = choose|j: int| 0 <= j < pool.len() && pool[j] == r[i];
    assert(slot_orig[pool[j].1 as int] == o);
}

/// A reduced pool names no point that the pool does not name.
proof fn lemma_deduped_of(pool: Seq<(i32, u32)>, slot_orig: Seq<u32>, o: u32)
    requires
        live_slots(pool, slot_orig),
        names(deduped(pool, slot_orig), slot_orig, o),
    ensures
        names(pool, slot_orig, o),
{
    assert(slots_exist(pool, slot_orig));
    lemma_pool_pass(pool, slot_orig, pool.len());
    let r = deduped(pool, slot_orig);
    let i = choose|i: int| 0 <= i < r.len() && slot_orig[(#[trigger] r[i]).1 as int] == o;
    if pool.len() >= 2 {
        assert(pool.take(pool.len() as int) =~= pool);
        assert(pool.contains(r[i]));
        let j = choose|j: int| 0 <= j < pool.len() && pool[j] == r[i];
        assert(slot_orig[pool[j].1 as int] == o);
    }
}

/// The cap of a scan drops no candidate.
pub open spec fn drops_none<R: Router, C: Compressor>(ix: &Index<R, C>, cells: Seq<u32>, t: nat, knobs: ScanKnobs) -> bool {
    t >= slots_in(ix.cell_bstart@, cells) || (t == 0 && !ix.fuses(knobs))
}

/// A scan whose cap drops no one keeps the points of its cells, and no others.
pub proof fn lemma_wide_scan_names<R: Router, C: Compressor>(ix: &Index<R, C>, ctx: QueryCtx, q: Seq<i8>, data: Seq<i8>, cells: Seq<u32>, t: nat, knobs: ScanKnobs)
    requires
        ix.main_ok(),
        ix.cells_exist(cells),
        drops_none(ix, cells, t, knobs),
    ensures
        named(ix.survivors_of(ctx, q, data, cells, t, knobs), ix.slot_orig@) == named(ix.plain_pool(ctx, q, data, cells), ix.slot_orig@),
{
    broadcast use vstd::seq_lib::group_to_multiset_ensures;

    let orig = ix.slot_orig@;
    let visited = if knobs.sort_cells {
        ascending(cells)
    } else {
        cells
    };
    lemma_ascending(cells);
    lemma_slots_ignore_order(ix.cell_bstart@, visited, cells);
    assert(ix.cells_exist(visited)) by {
        assert forall|i: int| 0 <= i < visited.len() implies #[trigger] visited[i] < ix.nc() by {
            assert(visited.contains(visited[i]));
            assert(visited.to_multiset().contains(visited[i]));
            assert(cells.contains(visited[i]));
            let j = choose|j: int| 0 <= j < cells.len() && cells[j] == visited[i];
            assert(cells[j] < ix.nc());
        }
    }
    ix.lemma_pool_live(ctx, q, data, visited);
    lemma_gathered_ignores_order(ix.plain_lanes(ctx, q, data), visited, cells);
    lemma_same_slots(ix, ctx, q, data, visited);
    let base = ix.plain_pool(ctx, q, data, cells);
    let plain = ix.plain_pool(ctx, q, data, visited);
    let pool = ix.pool_of(ctx, q, data, visited);
    let kept = if ix.dedups(knobs) {
        deduped(pool, orig)
    } else {
        pool
    };
    let r = ix.survivors_of(ctx, q, data, cells, t, knobs);
    lemma_pool_pass(pool, orig, pool.len());
    assert forall|o: u32| #[trigger] named(r, orig).contains(o) == named(base, orig).contains(o) by {
        if names(base, orig, o) {
            lemma_order_names(base, plain, orig, o);
            if ix.fuses(knobs) {
                lemma_wide_cap_names(plain, t, orig, o);
            } else {
                let i = choose|i: int| 0 <= i < plain.len() && orig[(#[trigger] plain[i]).1 as int] == o;
                assert(orig[pool[i].1 as int] == o);
                lemma_deduped_names(pool, orig, o);
                if t > 0 {
                    lemma_wide_cap_names(kept, t, orig, o);
                }
            }
        }
        if names(r, orig, o) {
            if ix.fuses(knobs) {
                if t > 0 {
                    lemma_capped_names(plain, t, orig, o);
                } else {
                    lemma_smallest(plain, t);
                }
            } else {
                lemma_capped_names(kept, t, orig, o);
                if ix.dedups(knobs) {
                    lemma_deduped_of(pool, orig, o);
                }
                let i = choose|i: int| 0 <= i < pool.len() && orig[(#[trigger] pool[i]).1 as int] == o;
                assert(pool[i].1 == plain[i].1);
                assert(orig[plain[i].1 as int] == o);
            }
            lemma_order_names(plain, base, orig, o);
        }
    }
    assert(named(r, orig) =~= named(base, orig));
}

/// Where the caps drop no candidate, no setting of the scan, be it the order of the cells, the
/// reduction of copies, the collection while scanning or the wide kernels, changes the exact scores of
/// an answer.
pub proof fn law_scan_settings_change_no_score<R: Router, C: Compressor>(ix: &Index<R, C>, q: Seq<i8>, data: Seq<i8>, cells: Seq<u32>, s: nat, t: nat, k: nat, a: ScanKnobs, b: ScanKnobs)
    requires
        ix.main_ok(),
        ix.reads(data),
        q.len() == ix.d,
        ix.cells_exist(cells),
        a.ip == b.ip,
        drops_none(ix, cells, s, a),
        drops_none(ix, cells, t, b),
    ensures
        score_alike(ix.found(q, data, cells, s, k, a), ix.found(q, data, cells, t, k, b), a.ip, q, data, ix.d as nat),
{
    let ctx = ix.comp.prepared(q);
    ix.lemma_survivors_live(ctx, q, data, cells, s, a);
    ix.lemma_survivors_live(ctx, q, data, cells, t, b);
    law_rerank_answers_the_best(ix, ix.survivors_of(ctx, q, data, cells, s, a), q, data, a.ip, k);
    law_rerank_answers_the_best(ix, ix.survivors_of(ctx, q, data, cells, t, b), q, data, a.ip, k);
    lemma_wide_scan_names(ix, ctx, q, data, cells, s, a);
    lemma_wide_scan_names(ix, ctx, q, data, cells, t, b);
    law_best_lists_score_alike(ix.found(q, data, cells, s, k, a), ix.found(q, data, cells, t, k, b), k, named(ix.plain_pool(ctx, q, data, cells), ix.slot_orig@), a.ip, q, data, ix.d as nat);
}

/// The points of a pool of `(score, point)`.
pub open spec fn listed_points(pool: Seq<(i32, u32)>) -> Set<u32> {
    Set::new(|o: u32| lists(pool, o))
}

/// Every id stands for itself.
spec fn own_ids(n: nat) -> Seq<u32> {
    Seq::new(n, |i: int| i as u32)
}

proof fn lemma_scored_own(pool: Seq<(i32, u32)>, n: nat, rows: Seq<i8>, d: nat, q: Seq<i8>, m: nat)
    requires
        m <= pool.len(),
        n <= NO_POINT,
        forall|i: int| 0 <= i < pool.len() ==> (#[trigger] pool[i]).1 < n,
    ensures
        rescored(pool, own_ids(n), rows, d, q, false, false, m) == scored_ids(pool, rows, d, q).take(m as int),
    decreases m,
{
    let all = scored_ids(pool, rows, d, q);
    if m == 0 {
        assert(rescored(pool, own_ids(n), rows, d, q, false, false, 0) =~= all.take(0));
    } else {
        lemma_scored_own(pool, n, rows, d, q, (m - 1) as nat);
        let slot = pool[m - 1].1;
        assert(own_ids(n)[slot as int] == slot);
        assert(all.take(m as int) =~= all.take(m - 1).push(all[m - 1]));
    }
}

/// The rerank from the base rows answers the best points of its pool.
pub proof fn law_base_rerank_answers_the_best<R: Router, C: Compressor>(ix: &Index<R, C>, pool: Seq<(i32, u32)>, q: Seq<i8>, data: Seq<i8>, t: nat, k: nat)
    requires
        ix.main_ok(),
        q.len() == ix.d,
        forall|i: int| 0 <= i < pool.len() ==> (#[trigger] pool[i]).1 != NO_POINT,
    ensures
        best_of(ix.nearest_points(pool, q, data, t, k), k, listed_points(capped(pool, t)), false, q, data, ix.d as nat),
{
    let cut = capped(pool, t);
    let d = ix.d as nat;
    let n = NO_POINT as nat;
    let ids = own_ids(n);
    lemma_smallest(pool, t);
    assert forall|i: int| 0 <= i < cut.len() implies (#[trigger] cut[i]).1 < n && ids[cut[i].1 as int] != NO_POINT by {
        assert(pool.contains(cut[i])) by {
            if t == 0 {
                assert(pool[i] == cut[i]);
            }
        }
        let x = choose|x: int| 0 <= x < pool.len() && pool[x] == cut[i];
        assert(pool[x].1 != NO_POINT);
        assert(ids[cut[i].1 as int] == cut[i].1);
    }
    assert(live_slots(cut, ids));
    assert forall|s: int| 0 <= s < ids.len() && #[trigger] ids[s] != NO_POINT implies row_of(data, d, row_index(ids, s as u32, false)) == row_of(data, d, ids[s] as int) by {
    }
    lemma_reranked_best(cut, ids, data, d, q, false, false, data, k);
    lemma_scored_own(cut, n, data, d, q, cut.len());
    assert(scored_ids(cut, data, d, q).take(cut.len() as int) =~= scored_ids(cut, data, d, q));
    assert(named(cut, ids) =~= listed_points(cut)) by {
        assert forall|o: u32| named(cut, ids).contains(o) == listed_points(cut).contains(o) by {
            if names(cut, ids, o) {
                let i = choose|i: int| 0 <= i < cut.len() && ids[(#[trigger] cut[i]).1 as int] == o;
                assert(ids[cut[i].1 as int] == cut[i].1);
            }
            if lists(cut, o) {
                let i = choose|i: int| 0 <= i < cut.len() && (#[trigger] cut[i]).1 == o;
                assert(ids[cut[i].1 as int] == cut[i].1);
            }
        }
    }
}

/// Where the caps drop no candidate, reranking from the base rows in place of the rows of the index
/// changes no exact score of an answer.
pub proof fn law_base_rows_change_no_score<R: Router, C: Compressor>(ix: &Index<R, C>, q: Seq<i8>, data: Seq<i8>, cells: Seq<u32>, s: nat, t: nat, k: nat, knobs: ScanKnobs)
    requires
        ix.main_ok(),
        ix.reads(data),
        q.len() == ix.d,
        ix.cells_exist(cells),
        !knobs.ip,
        s >= slots_in(ix.cell_bstart@, cells) || s == 0,
        drops_none(ix, cells, t, knobs),
    ensures
        score_alike(
            ix.nearest_points(ix.points_of(ix.comp.prepared(q), q, data, cells), q, data, s, k),
            ix.found(q, data, cells, t, k, knobs),
            false,
            q,
            data,
            ix.d as nat,
        ),
{
    let ctx = ix.comp.prepared(q);
    let orig = ix.slot_orig@;
    let plain = ix.plain_pool(ctx, q, data, cells);
    let pool = ix.points_of(ctx, q, data, cells);
    ix.lemma_pool_live(ctx, q, data, cells);
    assert forall|i: int| 0 <= i < pool.len() implies (#[trigger] pool[i]).1 != NO_POINT by {
        assert(orig[plain[i].1 as int] != NO_POINT);
    }
    law_base_rerank_answers_the_best(ix, pool, q, data, s, k);
    ix.lemma_survivors_live(ctx, q, data, cells, t, knobs);
    law_rerank_answers_the_best(ix, ix.survivors_of(ctx, q, data, cells, t, knobs), q, data, false, k);
    lemma_wide_scan_names(ix, ctx, q, data, cells, t, knobs);
    let points = named(plain, orig);
    let cut = capped(pool, s);
    assert(listed_points(cut) =~= points) by {
        assert forall|o: u32| listed_points(cut).contains(o) == points.contains(o) by {
            let ids = own_ids(NO_POINT as nat);
            if names(plain, orig, o) {
                let i = choose|i: int| 0 <= i < plain.len() && orig[(#[trigger] plain[i]).1 as int] == o;
                assert(pool[i].1 == o);
                assert(o < NO_POINT);
                assert(ids[pool[i].1 as int] == o);
                if s > 0 {
                    lemma_wide_cap_names(pool, s, ids, o);
                    let r = smallest(pool, s);
                    lemma_smallest(pool, s);
                    let j = choose|j: int| 0 <= j < r.len() && ids[(#[trigger] r[j]).1 as int] == o;
                    assert(pool.contains(r[j]));
                    let x = choose|x: int| 0 <= x < pool.len() && pool[x] == r[j];
                    assert(pool[x].1 != NO_POINT);
                    assert(ids[r[j].1 as int] == r[j].1);
                }
            }
            if lists(cut, o) {
                lemma_smallest(pool, s);
                let j = choose|j: int| 0 <= j < cut.len() && (#[trigger] cut[j]).1 == o;
                assert(pool.contains(cut[j])) by {
                    if s == 0 {
                        assert(pool[j] == cut[j]);
                    }
                }
                let x = choose|x: int| 0 <= x < pool.len() && pool[x] == cut[j];
                assert(orig[plain[x].1 as int] == o);
            }
        }
    }
    law_best_lists_score_alike(ix.nearest_points(pool, q, data, s, k), ix.found(q, data, cells, t, k, knobs), k, points, false, q, data, ix.d as nat);
}

/// The cap falls between two different scores.
pub open spec fn clean_cut(pool: Seq<(i32, u32)>, t: nat) -> bool {
    t < pool.len() ==> t > 0 && ascending(pool)[t - 1].0 < ascending(pool)[t as int].0
}

/// How many candidates score at most `c`.
spec fn upto(pool: Seq<(i32, u32)>, c: i32) -> nat
    decreases pool.len(),
{
    if pool.len() == 0 {
        0
    } else {
        upto(pool.drop_last(), c) + if pool.last().0 <= c {
            1nat
        } else {
            0nat
        }
    }
}

proof fn lemma_upto_place(r: Seq<(i32, u32)>, x: (i32, u32), c: i32)
    ensures
        upto(place(r, x), c) == upto(r.push(x), c),
    decreases r.len(),
{
    assert(r.push(x).drop_last() =~= r);
    if r.len() > 0 && !r.last().le(x) {
        let rest = r.drop_last();
        lemma_upto_place(rest, x, c);
        assert(rest.push(x).drop_last() =~= rest);
        assert(place(rest, x).push(r.last()).drop_last() =~= place(rest, x));
        reveal_with_fuel(upto, 3);
    }
}

proof fn lemma_upto_ascending(pool: Seq<(i32, u32)>, c: i32)
    ensures
        upto(ascending(pool), c) == upto(pool, c),
    decreases pool.len(),
{
    if pool.len() > 0 {
        let rest = ascending(pool.drop_last());
        lemma_upto_ascending(pool.drop_last(), c);
        lemma_upto_place(rest, pool.last(), c);
        assert(rest.push(pool.last()).drop_last() =~= rest);
    }
}

proof fn lemma_upto_points(pool: Seq<(i32, u32)>, slot_orig: Seq<u32>, c: i32)
    ensures
        upto(by_point(pool, slot_orig), c) == upto(pool, c),
    decreases pool.len(),
{
    if pool.len() > 0 {
        lemma_upto_points(pool.drop_last(), slot_orig, c);
        assert(by_point(pool, slot_orig).drop_last() =~= by_point(pool.drop_last(), slot_orig));
    }
}

/// In ascending order the candidates that score at most `c` come first.
proof fn lemma_upto_sorted(pool: Seq<(i32, u32)>, c: i32)
    requires
        sorted(pool),
    ensures
        upto(pool, c) <= pool.len(),
        forall|i: int| 0 <= i < pool.len() ==> ((#[trigger] pool[i]).0 <= c) == (i < upto(pool, c)),
    decreases pool.len(),
{
    if pool.len() > 0 {
        let rest = pool.drop_last();
        let n = pool.len() - 1;
        assert forall|i: int, j: int| 0 <= i <= j < rest.len() implies #[trigger] rest[i].le(#[trigger] rest[j]) by {
            assert(pool[i].le(pool[j]));
        }
        lemma_upto_sorted(rest, c);
        if n > 0 {
            assert(pool[n - 1].le(pool[n]));
            assert(rest[n - 1] == pool[n - 1]);
        }
        assert forall|i: int| 0 <= i < pool.len() implies ((#[trigger] pool[i]).0 <= c) == (i < upto(pool, c)) by {
            if i < n {
                assert(rest[i] == pool[i]);
            }
        }
    }
}

/// A cap that as many candidates reach as score at most `c` keeps just those.
proof fn lemma_cut_keeps(pool: Seq<(i32, u32)>, t: nat, c: i32, e: (i32, u32))
    requires
        t >= pool.len() || upto(pool, c) == t,
    ensures
        smallest(pool, t).contains(e) == (pool.contains(e) && (t >= pool.len() || e.0 <= c)),
{
    broadcast use vstd::seq_lib::group_to_multiset_ensures;

    let a = ascending(pool);
    let r = smallest(pool, t);
    lemma_ascending(pool);
    lemma_upto_ascending(pool, c);
    lemma_upto_sorted(a, c);
    if r.contains(e) {
        let i = choose|i: int| 0 <= i < r.len() && r[i] == e;
        assert(a[i] == e);
        assert(a.contains(e));
        assert(a.to_multiset().contains(e));
        assert(pool.contains(e));
    }
    if pool.contains(e) && (t >= pool.len() || e.0 <= c) {
        assert(pool.to_multiset().contains(e));
        assert(a.to_multiset().contains(e));
        assert(a.contains(e));
        let i = choose|i: int| 0 <= i < a.len() && a[i] == e;
        assert(r[i] == e);
    }
}

/// Where the cap falls between two scores, the best slots and the best points name the same points.
proof fn lemma_clean_cut_points(pool: Seq<(i32, u32)>, slot_orig: Seq<u32>, t: nat)
    requires
        clean_cut(pool, t),
    ensures
        listed_points(smallest(by_point(pool, slot_orig), t)) == named(smallest(pool, t), slot_orig),
{
    let pts = by_point(pool, slot_orig);
    let a = ascending(pool);
    let (x, y) = (smallest(pool, t), smallest(pts, t));
    let c = if t < pool.len() {
        a[t - 1].0
    } else {
        i32::MAX
    };
    lemma_ascending(pool);
    lemma_upto_ascending(pool, c);
    lemma_upto_sorted(a, c);
    lemma_upto_points(pool, slot_orig, c);
    if t < pool.len() {
        assert(a[t - 1].0 <= c);
        assert(a[t as int].0 > c);
    }
    assert forall|o: u32| listed_points(y).contains(o) == named(x, slot_orig).contains(o) by {
        if lists(y, o) {
            let j = choose|j: int| 0 <= j < y.len() && (#[trigger] y[j]).1 == o;
            assert(y.contains(y[j]));
            lemma_cut_keeps(pts, t, c, y[j]);
            let i = choose|i: int| 0 <= i < pts.len() && pts[i] == y[j];
            assert(pool.contains(pool[i]));
            lemma_cut_keeps(pool, t, c, pool[i]);
            let m = choose|m: int| 0 <= m < x.len() && x[m] == pool[i];
            assert(slot_orig[x[m].1 as int] == o);
        }
        if names(x, slot_orig, o) {
            let m = choose|m: int| 0 <= m < x.len() && slot_orig[(#[trigger] x[m]).1 as int] == o;
            assert(x.contains(x[m]));
            lemma_cut_keeps(pool, t, c, x[m]);
            let i = choose|i: int| 0 <= i < pool.len() && pool[i] == x[m];
            assert(pts.contains(pts[i]));
            lemma_cut_keeps(pts, t, c, pts[i]);
            let j = choose|j: int| 0 <= j < y.len() && y[j] == pts[i];
            assert(y[j].1 == o);
        }
    }
    assert(listed_points(y) =~= named(x, slot_orig));
}

/// Where no offset is taken off, the pool is the plain pool.
proof fn lemma_no_offset<R: Router, C: Compressor>(ix: &Index<R, C>, ctx: QueryCtx, q: Seq<i8>, data: Seq<i8>, cells: Seq<u32>)
    requires
        ix.rq_cent@.len() == 0,
    ensures
        ix.pool_of(ctx, q, data, cells) == ix.plain_pool(ctx, q, data, cells),
    decreases cells.len(),
{
    if cells.len() > 0 {
        lemma_no_offset(ix, ctx, q, data, cells.drop_last());
        let c = cells.last();
        let lanes = ix.cell_lanes(ctx, q, data, c as int);
        assert(ix.shifted_lanes(ctx, q, data)(c) == shifted(lanes, 0));
        assert(ix.plain_lanes(ctx, q, data)(c) == lanes);
        assert(shifted(lanes, 0) =~= lanes);
    }
}

/// Under one cap that falls between two different scores, reranking from the base rows in place of the
/// rows of the index changes no exact score of an answer, where the scan takes no offsets off and does
/// not reduce copies.
pub proof fn law_base_rows_change_no_score_of_a_capped_pool<R: Router, C: Compressor>(ix: &Index<R, C>, q: Seq<i8>, data: Seq<i8>, cells: Seq<u32>, t: nat, k: nat, knobs: ScanKnobs)
    requires
        ix.main_ok(),
        ix.reads(data),
        q.len() == ix.d,
        ix.cells_exist(cells),
        !knobs.ip,
        !ix.dedups(knobs),
        ix.fuses(knobs) || ix.rq_cent@.len() == 0,
        t > 0,
        clean_cut(ix.plain_pool(ix.comp.prepared(q), q, data, cells), t),
    ensures
        score_alike(
            ix.nearest_points(ix.points_of(ix.comp.prepared(q), q, data, cells), q, data, t, k),
            ix.found(q, data, cells, t, k, knobs),
            false,
            q,
            data,
            ix.d as nat,
        ),
{
    let ctx = ix.comp.prepared(q);
    let orig = ix.slot_orig@;
    let plain = ix.plain_pool(ctx, q, data, cells);
    let pool = ix.points_of(ctx, q, data, cells);
    let visited = if knobs.sort_cells {
        ascending(cells)
    } else {
        cells
    };
    lemma_ascending(cells);
    lemma_gathered_ignores_order(ix.plain_lanes(ctx, q, data), visited, cells);
    lemma_ascending_ignores_order(ix.plain_pool(ctx, q, data, visited), plain);
    if !ix.fuses(knobs) {
        lemma_no_offset(ix, ctx, q, data, visited);
    }
    let kept = ix.survivors_of(ctx, q, data, cells, t, knobs);
    assert(kept == smallest(plain, t));
    ix.lemma_pool_live(ctx, q, data, cells);
    assert forall|i: int| 0 <= i < pool.len() implies (#[trigger] pool[i]).1 != NO_POINT by {
        assert(orig[plain[i].1 as int] != NO_POINT);
    }
    law_base_rerank_answers_the_best(ix, pool, q, data, t, k);
    ix.lemma_survivors_live(ctx, q, data, cells, t, knobs);
    law_rerank_answers_the_best(ix, kept, q, data, false, k);
    lemma_clean_cut_points(plain, orig, t);
    law_best_lists_score_alike(ix.nearest_points(pool, q, data, t, k), ix.found(q, data, cells, t, k, knobs), k, named(kept, orig), false, q, data, ix.d as nat);
}

} // verus!
