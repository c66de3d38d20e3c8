//! Query paths of an index: pick the survivors of the scan, then rerank them exactly.
use vstd::prelude::*;
use vstd::slice::slice_subrange;
use crate::compress::{Compressor, QueryCtx};
use crate::fused::{lane_pool, FusedTopT};
use crate::ibin::I8Bin;
use crate::index::{Index, ScanKnobs};
use crate::layout::{below, bucket, members, Buckets};
use crate::order::{ascending, keep_smallest, lemma_ascending, lemma_ascending_ignores_order, lemma_smallest, smallest, sort_ascending};
use crate::rerank::{dedup_pool_by_orig, deduped, lemma_pool_pass, rerank_contig, reranked, rows_stored, slots_exist, NO_POINT};
use crate::router::Router;
use crate::scan::{gathered, lemma_gathered_ignores_order, shifted};
use crate::simd::{lemma_row_in_range, row_of};

verus! {

/// Every candidate names a slot that holds a point.
pub open spec fn live_slots(pool: Seq<(i32, u32)>, slot_orig: Seq<u32>) -> bool {
    forall|i: int| 0 <= i < pool.len() ==> (#[trigger] pool[i]).1 < slot_orig.len() && slot_orig[pool[i].1 as int] != NO_POINT
}

proof fn lemma_lanes_live(out: Seq<i32>, base: nat, slot_orig: Seq<u32>, n: nat)
    requires
        base + n <= slot_orig.len(),
        slot_orig.len() <= u32::MAX,
    ensures
        live_slots(lane_pool(out, base, slot_orig, n), slot_orig),
        lane_pool(out, base, slot_orig, n).len() <= n,
    decreases n,
{
    if n > 0 {
        lemma_lanes_live(out, base, slot_orig, (n - 1) as nat);
    }
}

/// Slots of a list of cells.
pub open spec fn slots_in(bstart: Seq<u32>, cells: Seq<u32>) -> nat
    decreases cells.len(),
{
    if cells.len() == 0 {
        0
    } else {
        slots_in(bstart, cells.drop_last()) + (16 * (bstart[cells.last() + 1] - bstart[cells.last() as int])) as nat
    }
}

/// The best `t` of a pool; `t == 0` leaves it as it is.
pub open spec fn capped(pool: Seq<(i32, u32)>, t: nat) -> Seq<(i32, u32)> {
    if t == 0 {
        pool
    } else {
        smallest(pool, t)
    }
}

fn cap_pool(pool: &mut Vec<(i32, u32)>, t: usize)
    ensures
        final(pool)@ == capped(old(pool)@, t as nat),
{
    if t > 0 {
        keep_smallest(pool, t);
    }
}

impl<R: Router, C: Compressor> Index<R, C> {
    pub proof fn lemma_pool_live(&self, ctx: QueryCtx, q: Seq<i8>, data: Seq<i8>, cells: Seq<u32>)
        requires
            self.main_ok(),
            self.cells_exist(cells),
        ensures
            live_slots(self.pool_of(ctx, q, data, cells), self.slot_orig@),
            live_slots(self.plain_pool(ctx, q, data, cells), self.slot_orig@),
            self.pool_of(ctx, q, data, cells).len() <= slots_in(self.cell_bstart@, cells),
            self.plain_pool(ctx, q, data, cells).len() <= slots_in(self.cell_bstart@, cells),
        decreases cells.len(),
    {
        if cells.len() > 0 {
            let rest = cells.drop_last();
            let c = cells.last() as int;
            assert(cells.last() == cells[cells.len() - 1]);
            assert forall|i: int| 0 <= i < rest.len() implies #[trigger] rest[i] < self.nc() by {
                assert(rest[i] == cells[i]);
            }
            self.lemma_pool_live(ctx, q, data, rest);
            self.lemma_cell_range(c);
            lemma_lanes_live(self.cell_scores(ctx, q, data, c), (16 * self.cell_bstart@[c]) as nat, self.slot_orig@, (16 * (self.cell_bstart@[c + 1] - self.cell_bstart@[c])) as nat);
            let lanes = self.cell_lanes(ctx, q, data, c);
            let moved = shifted(lanes, self.offset_of(ctx, q, c));
            assert(live_slots(moved, self.slot_orig@)) by {
                assert forall|i: int| 0 <= i < moved.len() implies (#[trigger] moved[i]).1 < self.slot_orig@.len() && self.slot_orig@[moved[i].1 as int] != NO_POINT by {
                    assert(moved[i].1 == lanes[i].1);
                }
            }
        }
    }

    pub proof fn lemma_rows_stored(&self, pool: Seq<(i32, u32)>)
        requires
            self.main_ok(),
            slots_exist(pool, self.slot_orig@),
        ensures
            rows_stored(pool, self.slot_orig@, self.raw@.len(), self.d as nat, self.raw_orig_indexed),
    {
        assert forall|i: int| 0 <= i < pool.len() && !self.raw_orig_indexed implies ((#[trigger] pool[i]).1 + 1) * self.d <= self.raw@.len() by {
            let s = pool[i].1 as int;
            let (d, n) = (self.d as int, self.slot_orig@.len() as int);
            assert((s + 1) * d <= n * d) by (nonlinear_arith)
                requires
                    s + 1 <= n,
                    0 <= d,
            ;
        }
    }

    /// Points are reduced to one candidate each before the cap.
    pub open spec fn dedups(&self, knobs: ScanKnobs) -> bool {
        self.a0 >= knobs.dedup_a0 || knobs.pool_dedup
    }

    /// The candidates are collected while scanning.
    pub open spec fn fuses(&self, knobs: ScanKnobs) -> bool {
        knobs.fused && !self.dedups(knobs) && !(knobs.residq && self.rq_cent@.len() > 0)
    }

    /// The candidates that enter the rerank.
    pub open spec fn survivors_of(&self, ctx: QueryCtx, q: Seq<i8>, data: Seq<i8>, cells: Seq<u32>, t: nat, knobs: ScanKnobs) -> Seq<(i32, u32)> {
        let visited = if knobs.sort_cells {
            ascending(cells)
        } else {
            cells
        };
        if self.fuses(knobs) {
            smallest(self.plain_pool(ctx, q, data, visited), t)
        } else {
            let pool = self.pool_of(ctx, q, data, visited);
            capped(
                if self.dedups(knobs) {
                    deduped(pool, self.slot_orig@)
                } else {
                    pool
                },
                t,
            )
        }
    }

    /// The sizes that a scan of `cells` for `t` survivors may reach.
    pub open spec fn scan_fits(&self, cells: Seq<u32>, t: nat, knobs: ScanKnobs) -> bool {
        &&& self.fuses(knobs) ==> 1 <= t <= usize::MAX / 2 - 64
        &&& self.dedups(knobs) ==> slots_in(self.cell_bstart@, cells) <= usize::MAX / 2
    }

    /// Survivors name slots that hold a point; there are no more of them than asked for, nor than the
    /// cells have slots.
    pub proof fn lemma_survivors_live(&self, ctx: QueryCtx, q: Seq<i8>, data: Seq<i8>, cells: Seq<u32>, t: nat, knobs: ScanKnobs)
        requires
            self.main_ok(),
            self.cells_exist(cells),
        ensures
            live_slots(self.survivors_of(ctx, q, data, cells, t, knobs), self.slot_orig@),
            self.survivors_of(ctx, q, data, cells, t, knobs).len() <= slots_in(self.cell_bstart@, cells),
            t >= 1 ==> self.survivors_of(ctx, q, data, cells, t, knobs).len() <= t,
    {
        broadcast use vstd::seq_lib::group_to_multiset_ensures;

        let visited = if knobs.sort_cells {
            ascending(cells)
        } else {
            cells
        };
        lemma_ascending(cells);
        assert forall|i: int| 0 <= i < visited.len() implies #[trigger] visited[i] < self.nc() by {
            assert(visited.to_multiset().contains(visited[i])) by {
                assert(visited.contains(visited[i]));
            }
            assert(cells.contains(visited[i]));
        }
        self.lemma_pool_live(ctx, q, data, visited);
        lemma_slots_ignore_order(self.cell_bstart@, visited, cells);
        lemma_smallest_live(self.plain_pool(ctx, q, data, visited), t, self.slot_orig@);
        let pool = self.pool_of(ctx, q, data, visited);
        lemma_deduped_live(pool, self.slot_orig@);
        lemma_smallest_live(pool, t, self.slot_orig@);
        lemma_smallest_live(deduped(pool, self.slot_orig@), t, self.slot_orig@);
        lemma_smallest(self.plain_pool(ctx, q, data, visited), t);
        lemma_smallest(pool, t);
        lemma_smallest(deduped(pool, self.slot_orig@), t);
    }

    /// Scan the cells and keep the `t` best candidates `(score, slot)`.
    pub fn survivors(&self, ds: &I8Bin<'_>, q: &[i8], cells: &[u32], ctx: &QueryCtx, t: usize, knobs: ScanKnobs) -> (r: Vec<(i32, u32)>)
        requires
            self.main_ok(),
            self.ctx_fits(*ctx),
            self.cells_exist(cells@),
            self.takes(ds, q@),
            self.scan_fits(cells@, t as nat, knobs),
        ensures
            r@ == self.survivors_of(*ctx, q@, ds.data@, cells@, t as nat, knobs),
            slots_exist(r@, self.slot_orig@),
    {
        let mut visited: Vec<u32> = vstd::slice::slice_to_vec(cells);
        if knobs.sort_cells {
            sort_ascending(&mut visited);
            proof {
                broadcast use vstd::seq_lib::group_to_multiset_ensures;

                lemma_ascending(cells@);
                assert forall|i: int| 0 <= i < visited@.len() implies #[trigger] visited@[i] < self.nc() by {
                    assert(visited@.to_multiset().contains(visited@[i])) by {
                        assert(visited@.contains(visited@[i]));
                    }
                    assert(cells@.contains(visited@[i]));
                }
                lemma_slots_ignore_order(self.cell_bstart@, visited@, cells@);
            }
        }
        proof {
            self.lemma_pool_live(*ctx, q@, ds.data@, visited@);
        }
        let need_dedup = self.a0 >= knobs.dedup_a0 || knobs.pool_dedup;
        let residq_active = knobs.residq && self.rq_cent.len() > 0;
        if knobs.fused && !need_dedup && !residq_active {
            let pool = self.scan_pool_fused(ds, q, visited.as_slice(), ctx, t, knobs.use512);
            proof {
                lemma_smallest_live(self.plain_pool(*ctx, q@, ds.data@, visited@), t as nat, self.slot_orig@);
            }
            return pool;
        }
        let mut pool = self.scan_pool(ds, q, visited.as_slice(), ctx, knobs.use512);
        if need_dedup {
            proof {
                lemma_deduped_live(pool@, self.slot_orig@);
            }
            dedup_pool_by_orig(&mut pool, self.slot_orig.as_slice());
        }
        proof {
            lemma_smallest_live(pool@, t as nat, self.slot_orig@);
        }
        cap_pool(&mut pool, t);
        pool
    }

    /// The `k` nearest points among the survivors of a scan of `cells`.
    pub fn scan_rerank(&self, ds: &I8Bin<'_>, q: &[i8], cells: &[u32], t: usize, k: usize, knobs: ScanKnobs) -> (r: Vec<u32>)
        requires
            self.main_ok(),
            self.cells_exist(cells@),
            self.takes(ds, q@),
            self.scan_fits(cells@, t as nat, knobs),
            k <= usize::MAX / 4,
        ensures
            r@ == self.found(q@, ds.data@, cells@, t as nat, k as nat, knobs),
    {
        let ctx = self.comp.prepare_query(q);
        let pool = self.survivors(ds, q, cells, &ctx, t, knobs);
        proof {
            self.lemma_rows_stored(pool@);
        }
        rerank_contig(self.raw.as_slice(), self.d, self.slot_orig.as_slice(), q, &pool, k, self.raw_orig_indexed, knobs.ip)
    }

    /// The `k` nearest points among the survivors of a scan of `cells`.
    pub open spec fn found(&self, q: Seq<i8>, data: Seq<i8>, cells: Seq<u32>, t: nat, k: nat, knobs: ScanKnobs) -> Seq<u32> {
        reranked(self.survivors_of(self.comp.prepared(q), q, data, cells, t, knobs), self.slot_orig@, self.raw@, self.d as nat, q, self.raw_orig_indexed, knobs.ip, k)
    }

    /// The `k` nearest points found in the `p` cells that the query probes. `qn` is the normalised
    /// query.
    pub fn search(&self, ds: &I8Bin<'_>, q: &[i8], qn: &[i8], p: usize, t: usize, k: usize, knobs: ScanKnobs) -> (r: Vec<u32>)
        requires
            self.main_ok(),
            self.router.takes(q@, qn@),
            p >= 1,
            self.takes(ds, q@),
            self.scan_fits(self.router.probed(q@, qn@, p as nat), t as nat, knobs),
            k <= usize::MAX / 4,
        ensures
            r@ == self.found(q@, ds.data@, self.router.probed(q@, qn@, p as nat), t as nat, k as nat, knobs),
    {
        let cells = self.router.probe(q, qn, p);
        self.scan_rerank(ds, q, cells.as_slice(), t, k, knobs)
    }
}

pub proof fn lemma_smallest_live(pool: Seq<(i32, u32)>, t: nat, slot_orig: Seq<u32>)
    requires
        live_slots(pool, slot_orig),
    ensures
        live_slots(smallest(pool, t), slot_orig),
{
    lemma_smallest(pool, t);
    let r = smallest(pool, t);
    assert forall|i: int| 0 <= i < r.len() implies (#[trigger] r[i]).1 < slot_orig.len() && slot_orig[r[i].1 as int] != NO_POINT by {
        assert(pool.contains(r[i]));
    }
}

pub proof fn lemma_deduped_live(pool: Seq<(i32, u32)>, slot_orig: Seq<u32>)
    requires
        live_slots(pool, slot_orig),
    ensures
        live_slots(deduped(pool, slot_orig), slot_orig),
        slots_exist(pool, slot_orig),
        deduped(pool, slot_orig).len() <= pool.len(),
{
    lemma_pool_pass(pool, slot_orig, pool.len());
}

proof fn lemma_slots_remove(bstart: Seq<u32>, cells: Seq<u32>, i: int)
    requires
        0 <= i < cells.len(),
    ensures
        slots_in(bstart, cells) == slots_in(bstart, cells.remove(i)) + (16 * (bstart[cells[i] + 1] - bstart[cells[i] as int])) as nat,
    decreases cells.len(),
{
    if i == cells.len() - 1 {
        assert(cells.remove(i) =~= cells.drop_last());
    } else {
        let rest = cells.drop_last();
        lemma_slots_remove(bstart, rest, i);
        assert(cells.remove(i).drop_last() =~= rest.remove(i));
        assert(cells.remove(i).last() == cells.last());
    }
}

pub proof fn lemma_slots_ignore_order(bstart: Seq<u32>, a: Seq<u32>, b: Seq<u32>)
    requires
        a.to_multiset() == b.to_multiset(),
    ensures
        slots_in(bstart, a) == slots_in(bstart, b),
    decreases a.len(),
{
    broadcast use vstd::seq_lib::group_to_multiset_ensures;

    assert(a.to_multiset().len() == a.len());
    assert(b.to_multiset().len() == b.len());
    if a.len() > 0 {
        let x = a.last();
        assert(a.to_multiset().count(x) > 0) by {
            assert(a.contains(x));
        }
        assert(b.contains(x));
        let i = b.index_of(x);
        let n = a.len() - 1;
        lemma_slots_remove(bstart, a, n);
        lemma_slots_remove(bstart, b, i);
        assert(a.remove(n).to_multiset() =~= a.to_multiset().remove(x));
        assert(b.remove(i).to_multiset() =~= b.to_multiset().remove(x));
        lemma_slots_ignore_order(bstart, a.remove(n), b.remove(i));
    } else {
        assert(a =~= b);
    }
}

proof fn lemma_unshifted(pool: Seq<(i32, u32)>)
    ensures
        shifted(pool, 0) == pool,
{
    assert(shifted(pool, 0) =~= pool);
}

pub proof fn lemma_gathered_same(f: spec_fn(u32) -> Seq<(i32, u32)>, g: spec_fn(u32) -> Seq<(i32, u32)>, cells: Seq<u32>)
    requires
        forall|c: u32| #[trigger] f(c) == g(c),
    ensures
        gathered(f, cells) == gathered(g, cells),
    decreases cells.len(),
{
    if cells.len() > 0 {
        lemma_gathered_same(f, g, cells.drop_last());
    }
}

/// Collecting the best candidates while scanning finds the same survivors as scanning everything and
/// capping the pool. (Where cells carry offsets, the setting must say so.)
pub proof fn law_fused_scan_changes_nothing<R: Router, C: Compressor>(ix: &Index<R, C>, ctx: QueryCtx, q: Seq<i8>, data: Seq<i8>, cells: Seq<u32>, t: nat, knobs: ScanKnobs)
    requires
        t >= 1,
        ix.rq_cent@.len() > 0 ==> knobs.residq,
    ensures
        ix.survivors_of(ctx, q, data, cells, t, (ScanKnobs { fused: true, ..knobs })) == ix.survivors_of(ctx, q, data, cells, t, (ScanKnobs { fused: false, ..knobs })),
{
    let visited = if knobs.sort_cells {
        ascending(cells)
    } else {
        cells
    };
    if ix.rq_cent@.len() == 0 {
        let f = ix.shifted_lanes(ctx, q, data);
        let g = ix.plain_lanes(ctx, q, data);
        assert forall|c: u32| #[trigger] f(c) == g(c) by {
            lemma_unshifted(ix.cell_lanes(ctx, q, data, c as int));
        }
        lemma_gathered_same(f, g, visited);
    }
}

/// Where points are not reduced to one candidate each, the survivors do not depend on the order in
/// which the cells are visited.
pub proof fn law_cell_order_changes_nothing<R: Router, C: Compressor>(ix: &Index<R, C>, ctx: QueryCtx, q: Seq<i8>, data: Seq<i8>, a: Seq<u32>, b: Seq<u32>, t: nat, knobs: ScanKnobs)
    requires
        t >= 1,
        !ix.dedups(knobs),
        a.to_multiset() == b.to_multiset(),
    ensures
        ix.survivors_of(ctx, q, data, a, t, (ScanKnobs { sort_cells: false, ..knobs })) == ix.survivors_of(ctx, q, data, b, t, (ScanKnobs { sort_cells: false, ..knobs })),
        ix.survivors_of(ctx, q, data, a, t, (ScanKnobs { sort_cells: true, ..knobs })) == ix.survivors_of(ctx, q, data, b, t, (ScanKnobs { sort_cells: false, ..knobs })),
{
    lemma_ascending(a);
    lemma_pool_order(ix.shifted_lanes(ctx, q, data), a, b, t);
    lemma_pool_order(ix.plain_lanes(ctx, q, data), a, b, t);
    lemma_pool_order(ix.shifted_lanes(ctx, q, data), ascending(a), b, t);
    lemma_pool_order(ix.plain_lanes(ctx, q, data), ascending(a), b, t);
}

proof fn lemma_pool_order(f: spec_fn(u32) -> Seq<(i32, u32)>, a: Seq<u32>, b: Seq<u32>, t: nat)
    requires
        a.to_multiset() == b.to_multiset(),
    ensures
        smallest(gathered(f, a), t) == smallest(gathered(f, b), t),
{
    lemma_gathered_ignores_order(f, a, b);
    lemma_ascending_ignores_order(gathered(f, a), gathered(f, b));
}

// ---------------------------------------------------------------- cell-major batches

/// Query `i` of a batch of row-major queries.
pub open spec fn query_of(queries: Seq<i8>, d: nat, i: int) -> Seq<i8> {
    row_of(queries, d, i)
}

/// How often cell `x` is probed by query `i` among the first `n` pairs.
pub open spec fn probes(flat: Seq<u32>, owner: Seq<u32>, x: u32, i: u32, n: nat) -> nat
    decreases n,
{
    if n == 0 {
        0
    } else {
        probes(flat, owner, x, i, (n - 1) as nat) + (if flat[n - 1] == x && owner[n - 1] == i { 1nat } else { 0nat })
    }
}

proof fn lemma_probes_prefix(flat: Seq<u32>, owner: Seq<u32>, flat2: Seq<u32>, owner2: Seq<u32>, x: u32, i: u32, n: nat)
    requires
        n <= flat.len(),
        n <= flat2.len(),
        n <= owner.len(),
        n <= owner2.len(),
        forall|k: int| 0 <= k < n ==> #[trigger] flat[k] == flat2[k],
        forall|k: int| 0 <= k < n ==> #[trigger] owner[k] == owner2[k],
    ensures
        probes(flat, owner, x, i, n) == probes(flat2, owner2, x, i, n),
    decreases n,
{
    if n > 0 {
        lemma_probes_prefix(flat, owner, flat2, owner2, x, i, (n - 1) as nat);
    }
}

/// How many of the first `k` listed pairs belong to query `i`.
pub open spec fn owned(pairs: Seq<u32>, owner: Seq<u32>, i: u32, k: nat) -> nat
    decreases k,
{
    if k == 0 {
        0
    } else {
        owned(pairs, owner, i, (k - 1) as nat) + (if owner[pairs[k - 1] as int] == i { 1nat } else { 0nat })
    }
}

proof fn lemma_owned_prefix(a: Seq<u32>, b: Seq<u32>, owner: Seq<u32>, i: u32, k: nat)
    requires
        k <= a.len(),
        k <= b.len(),
        forall|j: int| 0 <= j < k ==> #[trigger] a[j] == b[j],
    ensures
        owned(a, owner, i, k) == owned(b, owner, i, k),
    decreases k,
{
    if k > 0 {
        lemma_owned_prefix(a, b, owner, i, (k - 1) as nat);
    }
}

proof fn lemma_owned_members(flat: Seq<u32>, owner: Seq<u32>, x: u32, i: u32, n: nat)
    requires
        n <= flat.len(),
        flat.len() <= u32::MAX,
    ensures
        owned(members(flat, 1, x as int, n), owner, i, members(flat, 1, x as int, n).len()) == probes(flat, owner, x, i, n),
    decreases n,
{
    if n > 0 {
        lemma_owned_members(flat, owner, x, i, (n - 1) as nat);
        let prev = members(flat, 1, x as int, (n - 1) as nat);
        let all = members(flat, 1, x as int, n);
        if flat[n - 1] == x {
            assert((n - 1) / 1 == n - 1);
            lemma_owned_prefix(all, prev, owner, i, prev.len());
        }
    }
}

/// The pairs of a batch: every cell of every query, with the query that probes it.
pub open spec fn pairs_of(flat: Seq<u32>, owner: Seq<u32>, cells: Seq<Vec<u32>>) -> bool {
    &&& flat.len() == owner.len()
    &&& forall|k: int| 0 <= k < owner.len() ==> #[trigger] owner[k] < cells.len()
    &&& forall|i: u32, x: u32| i < cells.len() ==> #[trigger] probes(flat, owner, x, i, flat.len()) == cells[i as int]@.to_multiset().count(x)
}

/// Cells probed by a batch in all.
pub open spec fn total_probes(cells: Seq<Vec<u32>>, n: nat) -> nat
    decreases n,
{
    if n == 0 {
        0
    } else {
        total_probes(cells, (n - 1) as nat) + cells[n - 1]@.len()
    }
}

fn flatten(cells: &Vec<Vec<u32>>, nc: usize) -> (r: (Vec<u32>, Vec<u32>))
    requires
        cells@.len() <= u32::MAX,
        forall|i: int, j: int| 0 <= i < cells@.len() && 0 <= j < cells@[i]@.len() ==> #[trigger] cells@[i]@[j] < nc,
    ensures
        pairs_of(r.0@, r.1@, cells@),
        r.0@.len() == total_probes(cells@, cells@.len()),
        forall|k: int| 0 <= k < r.0@.len() ==> #[trigger] r.0@[k] < nc,
{
    let mut flat: Vec<u32> = Vec::new();
    let mut owner: Vec<u32> = Vec::new();
    let n: usize = cells.len();
    let mut i: usize = 0;
    proof {
        assert forall|e: u32, x: u32| #[trigger] probes(flat@, owner@, x, e, 0) == 0 by {
        }
    }
    while i < n
        invariant
            i <= n,
            n == cells@.len(),
            n <= u32::MAX,
            forall|i: int, j: int| 0 <= i < cells@.len() && 0 <= j < cells@[i]@.len() ==> #[trigger] cells@[i]@[j] < nc,
            flat@.len() == owner@.len(),
            flat@.len() == total_probes(cells@, i as nat),
            forall|k: int| 0 <= k < flat@.len() ==> #[trigger] flat@[k] < nc,
            forall|k: int| 0 <= k < owner@.len() ==> #[trigger] owner@[k] < i,
            forall|e: u32, x: u32| #[trigger] probes(flat@, owner@, x, e, flat@.len()) == (if e < i { cells@[e as int]@.to_multiset().count(x) } else { 0nat }),
        decreases n - i,
    {
        let m: usize = cells[i].len();
        let mut j: usize = 0;
        let ghost list = cells@[i as int]@;
        proof {
            broadcast use vstd::seq_lib::group_to_multiset_ensures;

            assert(list.take(0) =~= Seq::<u32>::empty());
            assert forall|x: u32| #[trigger] list.take(0).to_multiset().count(x) == 0 by {
                assert(!list.take(0).contains(x));
            }
        }
        while j < m
            invariant
                j <= m,
                i < n,
                n == cells@.len(),
                n <= u32::MAX,
                list == cells@[i as int]@,
                m == list.len(),
                forall|i: int, j: int| 0 <= i < cells@.len() && 0 <= j < cells@[i]@.len() ==> #[trigger] cells@[i]@[j] < nc,
                flat@.len() == owner@.len(),
                flat@.len() == total_probes(cells@, i as nat) + j,
                forall|k: int| 0 <= k < flat@.len() ==> #[trigger] flat@[k] < nc,
                forall|k: int| 0 <= k < owner@.len() ==> #[trigger] owner@[k] <= i,
                forall|e: u32, x: u32| #[trigger] probes(flat@, owner@, x, e, flat@.len()) == (if e < i { cells@[e as int]@.to_multiset().count(x) } else if e == i { list.take(j as int).to_multiset().count(x) } else { 0nat }),
            decreases m - j,
        {
            let ghost f0 = flat@;
            let ghost o0 = owner@;
            let c: u32 = cells[i][j];
            assert(cells@[i as int]@[j as int] < nc);
            flat.push(c);
            owner.push(i as u32);
            proof {
                broadcast use vstd::seq_lib::group_to_multiset_ensures;

                assert(list.take(j + 1) =~= list.take(j as int).push(c));
                assert forall|e: u32, x: u32| #[trigger] probes(flat@, owner@, x, e, flat@.len()) == (if e < i { cells@[e as int]@.to_multiset().count(x) } else if e == i { list.take(j + 1).to_multiset().count(x) } else { 0nat }) by {
                    lemma_probes_prefix(flat@, owner@, f0, o0, x, e, f0.len());
                    assert(probes(f0, o0, x, e, f0.len()) == probes(flat@, owner@, x, e, f0.len()));
                }
            }
            j = j + 1;
        }
        assert(list.take(m as int) =~= list);
        i = i + 1;
    }
    (flat, owner)
}

impl<R: Router, C: Compressor> Index<R, C> {
    /// What a cell-major batch needs of its inputs: one context and one cell list per query.
    pub open spec fn batch_ok(&self, ds: &I8Bin<'_>, queries: Seq<i8>, cells: Seq<Vec<u32>>, ctxs: Seq<QueryCtx>) -> bool {
        &&& self.main_ok()
        &&& self.comp.raw_rows() ==> self.rows_in(ds)
        &&& queries.len() == cells.len() * self.d
        &&& ctxs.len() == cells.len()
        &&& cells.len() <= u32::MAX
        &&& total_probes(cells, cells.len()) <= u32::MAX
        &&& forall|i: int| 0 <= i < ctxs.len() ==> self.ctx_fits(#[trigger] ctxs[i])
        &&& forall|i: int, j: int| 0 <= i < cells.len() && 0 <= j < cells[i]@.len() ==> #[trigger] cells[i]@[j] < self.nc()
    }

    /// Scan a batch cell by cell, so that the blocks of a cell are read once for all queries that probe
    /// it. The survivors of each query are those that a scan of its own cells finds.
    pub fn batch_pools(&self, ds: &I8Bin<'_>, queries: &[i8], cells: &Vec<Vec<u32>>, ctxs: &Vec<QueryCtx>, t: usize, use512: bool) -> (r: Vec<Vec<(i32, u32)>>)
        requires
            self.batch_ok(ds, queries@, cells@, ctxs@),
            1 <= t <= usize::MAX / 2 - 64,
            self.nc() < u32::MAX,
        ensures
            r@.len() == cells@.len(),
            forall|i: int| 0 <= i < r@.len() ==> (#[trigger] r@[i])@ == smallest(self.plain_pool(ctxs@[i], query_of(queries@, self.d as nat, i), ds.data@, cells@[i]@), t as nat),
    {
        let nq: usize = cells.len();
        let nc: usize = self.router.n_cells();
        let qlen: usize = queries.len();
        let d: usize = self.d;
        let (flat, owner) = flatten(cells, nc);
        let b: Buckets = bucket(&flat, 1, nc);
        let ghost n = flat@.len();
        let mut tops: Vec<FusedTopT> = Vec::with_capacity(nq);
        let ghost mut seen: Seq<Seq<u32>> = Seq::new(nq as nat, |i: int| Seq::<u32>::empty());
        let mut i: usize = 0;
        while i < nq
            invariant
                i <= nq,
                1 <= t <= usize::MAX / 2 - 64,
                tops@.len() == i,
                forall|e: int| 0 <= e < i ==> (#[trigger] tops@[e]).wf() && tops@[e].cap() == t && tops@[e]@ == Seq::<(i32, u32)>::empty(),
            decreases nq - i,
        {
            tops.push(FusedTopT::new(t));
            i = i + 1;
        }
        proof {
            broadcast use vstd::seq_lib::group_to_multiset_ensures;

            assert forall|e: int, x: u32| 0 <= e < nq implies #[trigger] seen[e].to_multiset().count(x) == 0 by {
                assert(!seen[e].contains(x));
            }
        }
        let blen: usize = b.ids.len();
        let olen: usize = owner.len();
        let mut c: usize = 0;
        while c < nc
            invariant
                c <= nc,
                nc == self.nc(),
                nc < u32::MAX,
                nq == cells@.len(),
                qlen == queries@.len(),
                d == self.d,
                self.batch_ok(ds, queries@, cells@, ctxs@),
                pairs_of(flat@, owner@, cells@),
                n == flat@.len(),
                n <= u32::MAX,
                blen == b.ids@.len(),
                olen == owner@.len(),
                forall|k: int| 0 <= k < flat@.len() ==> #[trigger] flat@[k] < nc,
                b.group(flat@, 1, nc as nat),
                tops@.len() == nq,
                seen.len() == nq,
                forall|e: int| 0 <= e < nq ==> (#[trigger] tops@[e]).wf() && tops@[e].cap() == t,
                forall|e: int| 0 <= e < nq ==> (#[trigger] tops@[e])@ == self.plain_pool(ctxs@[e], query_of(queries@, d as nat, e), ds.data@, seen[e]),
                forall|e: int, x: u32| 0 <= e < nq ==> #[trigger] seen[e].to_multiset().count(x) == (if x < c { probes(flat@, owner@, x, e as u32, n) } else { 0nat }),
            decreases nc - c,
        {
            let ghost list = members(flat@, 1, c as int, n);
            proof {
                assert(b.of(c as int) == list);
                assert(b.start@[c as int] == below(flat@, 1, c as nat, n));
                assert(b.start@[c + 1] == below(flat@, 1, (c + 1) as nat, n));
                crate::layout::lemma_below_monotone(flat@, 1, (c + 1) as nat, nc as nat, n);
                crate::layout::lemma_below_all(flat@, 1, nc as nat, n);
                crate::layout::lemma_members_are_points(flat@, 1, c as int, n, n);
            }
            let from: usize = b.start[c] as usize;
            let to: usize = b.start[c + 1] as usize;
            let mut k: usize = from;
            while k < to
                invariant
                    from <= k <= to,
                    to <= blen,
                    c < nc,
                    nc == self.nc(),
                    nc < u32::MAX,
                    nq == cells@.len(),
                    qlen == queries@.len(),
                    d == self.d,
                    self.batch_ok(ds, queries@, cells@, ctxs@),
                    pairs_of(flat@, owner@, cells@),
                    n == flat@.len(),
                    n <= u32::MAX,
                    blen == b.ids@.len(),
                    olen == owner@.len(),
                    list == members(flat@, 1, c as int, n),
                    list == b.ids@.subrange(from as int, to as int),
                    forall|j: int| 0 <= j < list.len() ==> #[trigger] list[j] < n,
                    tops@.len() == nq,
                    seen.len() == nq,
                    forall|e: int| 0 <= e < nq ==> (#[trigger] tops@[e]).wf() && tops@[e].cap() == t,
                    forall|e: int| 0 <= e < nq ==> (#[trigger] tops@[e])@ == self.plain_pool(ctxs@[e], query_of(queries@, d as nat, e), ds.data@, seen[e]),
                    forall|e: int, x: u32| 0 <= e < nq ==> #[trigger] seen[e].to_multiset().count(x) == (if x < c { probes(flat@, owner@, x, e as u32, n) } else if x == c { owned(list, owner@, e as u32, (k - from) as nat) } else { 0nat }),
                decreases to - k,
            {
                let pos: u32 = b.ids[k];
                assert(pos == list[k - from]);
                let qi: usize = owner[pos as usize] as usize;
                let ghost seen0 = seen;
                proof {
                    lemma_row_in_range(qi as int, d as int, nq as int, qlen as int);
                }
                let q: &[i8] = slice_subrange(queries, qi * d, qi * d + d);
                assert(q@ == query_of(queries@, d as nat, qi as int));
                self.scan_cell_fused(ds, q, c as u32, &ctxs[qi], &mut tops[qi], use512);
                proof {
                    broadcast use vstd::seq_lib::group_to_multiset_ensures;

                    seen = seen.update(qi as int, seen0[qi as int].push(c as u32));
                    assert(seen[qi as int].drop_last() =~= seen0[qi as int]);
                    assert forall|e: int, x: u32| 0 <= e < nq implies #[trigger] seen[e].to_multiset().count(x) == (if x < c { probes(flat@, owner@, x, e as u32, n) } else if x == c { owned(list, owner@, e as u32, (k + 1 - from) as nat) } else { 0nat }) by {
                        assert(owned(list, owner@, e as u32, (k + 1 - from) as nat) == owned(list, owner@, e as u32, (k - from) as nat) + (if owner@[list[k - from] as int] == e as u32 { 1nat } else { 0nat }));
                        assert(seen0[e].to_multiset().count(x) == (if x < c { probes(flat@, owner@, x, e as u32, n) } else if x == c { owned(list, owner@, e as u32, (k - from) as nat) } else { 0nat }));
                    }
                }
                k = k + 1;
            }
            proof {
                assert forall|e: int, x: u32| 0 <= e < nq implies #[trigger] seen[e].to_multiset().count(x) == (if x < c + 1 { probes(flat@, owner@, x, e as u32, n) } else { 0nat }) by {
                    lemma_owned_members(flat@, owner@, c as u32, e as u32, n);
                }
            }
            c = c + 1;
        }
        proof {
            assert forall|e: int| 0 <= e < nq implies smallest((#[trigger] tops@[e])@, t as nat) == smallest(self.plain_pool(ctxs@[e], query_of(queries@, d as nat, e), ds.data@, cells@[e]@), t as nat) by {
                broadcast use vstd::seq_lib::group_to_multiset_ensures;

                assert forall|x: u32| seen[e].to_multiset().count(x) == cells@[e]@.to_multiset().count(x) by {
                    assert(probes(flat@, owner@, x, e as u32, n) == cells@[e]@.to_multiset().count(x));
                    if x >= nc && cells@[e]@.to_multiset().count(x) > 0 {
                        assert(cells@[e]@.contains(x));
                        let j = choose|j: int| 0 <= j < cells@[e]@.len() && cells@[e]@[j] == x;
                        assert(cells@[e]@[j] < nc);
                    }
                }
                assert(seen[e].to_multiset() =~= cells@[e]@.to_multiset());
                lemma_pool_order(self.plain_lanes(ctxs@[e], query_of(queries@, d as nat, e), ds.data@), seen[e], cells@[e]@, t as nat);
            }
        }
        finish_all(tops, Ghost(t as nat))
    }
}

/// Finish a list of collections, in order.
fn finish_all(tops: Vec<FusedTopT>, cap: Ghost<nat>) -> (r: Vec<Vec<(i32, u32)>>)
    requires
        forall|e: int| 0 <= e < tops@.len() ==> (#[trigger] tops@[e]).wf() && tops@[e].cap() == cap@,
    ensures
        r@.len() == tops@.len(),
        forall|e: int| 0 <= e < r@.len() ==> (#[trigger] r@[e])@ == smallest(tops@[e]@, cap@),
{
    let n: usize = tops.len();
    let ghost all = tops@;
    let mut tops = tops;
    let mut back: Vec<FusedTopT> = Vec::with_capacity(n);
    let mut i: usize = 0;
    while i < n
        invariant
            i <= n,
            n == all.len(),
            tops@ =~= all.take(n - i),
            back@.len() == i,
            forall|e: int| 0 <= e < i ==> #[trigger] back@[e] == all[n - 1 - e],
        decreases n - i,
    {
        match tops.pop() {
            Some(top) => back.push(top),
            None => {},
        }
        i = i + 1;
    }
    let mut r: Vec<Vec<(i32, u32)>> = Vec::with_capacity(n);
    let mut j: usize = 0;
    let ghost rev = back@;
    while j < n
        invariant
            j <= n,
            n == all.len(),
            rev.len() == n,
            back@ =~= rev.take(n - j),
            forall|e: int| 0 <= e < n ==> #[trigger] rev[e] == all[n - 1 - e],
            forall|e: int| 0 <= e < all.len() ==> (#[trigger] all[e]).wf() && all[e].cap() == cap@,
            r@.len() == j,
            forall|e: int| 0 <= e < j ==> (#[trigger] r@[e])@ == smallest(all[e]@, cap@),
        decreases n - j,
    {
        match back.pop() {
            Some(top) => {
                assert(top == rev[n - 1 - j]);
                assert(top == all[j as int]);
                r.push(top.finish());
            },
            None => {},
        }
        j = j + 1;
    }
    r
}

} // verus!
