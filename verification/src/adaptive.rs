//! Query paths that rank points rather than slots, early termination, and scan measurements.
use vstd::prelude::*;
use crate::compress::{Compressor, QueryCtx};
use crate::dump::held;
use crate::fused::lane_pool;
use crate::ibin::I8Bin;
use crate::index::Index;
use crate::order::{keep_smallest, lemma_smallest, lemma_smallest_of_capped, smallest};
use crate::rerank::{first_ids, nearest, rerank_survivors, scored_ids, NO_POINT};
use crate::router::Router;
use crate::search::capped;
use crate::simd::lemma_row_in_range;

verus! {

/// Candidates `(score, point)` for candidates `(score, slot)`.
pub open spec fn by_point(pool: Seq<(i32, u32)>, slot_orig: Seq<u32>) -> Seq<(i32, u32)> {
    Seq::new(pool.len(), |i: int| (pool[i].0, slot_orig[pool[i].1 as int]))
}

proof fn lemma_by_point_add(a: Seq<(i32, u32)>, b: Seq<(i32, u32)>, slot_orig: Seq<u32>)
    ensures
        by_point(a + b, slot_orig) == by_point(a, slot_orig) + by_point(b, slot_orig),
{
    assert(by_point(a + b, slot_orig) =~= by_point(a, slot_orig) + by_point(b, slot_orig));
}

/// What an adaptive scan knows after some cells.
pub struct Pace {
    /// The `k`-th best score at the last look.
    pub prev: int,
    /// Looks in a row without an improvement.
    pub stall: nat,
    /// Cells scanned.
    pub used: nat,
    /// The scan has ended.
    pub stop: bool,
}

/// One look after `n` cells: every `win` cells, once there are `k` candidates, compare the `k`-th best
/// score with that of the last look, and end the scan after `patience` looks without an improvement.
pub open spec fn look(s: Pace, pool: Seq<(i32, u32)>, k: nat, win: nat, patience: nat, n: nat) -> Pace {
    if n % win == 0 && pool.len() >= k {
        let kth = smallest(pool, k)[k - 1].0 as int;
        let stall = if kth >= s.prev {
            s.stall + 1
        } else {
            0
        };
        Pace { prev: kth, stall, used: n, stop: stall >= patience }
    } else {
        Pace { used: n, ..s }
    }
}

impl<R: Router, C: Compressor> Index<R, C> {
    /// Candidates `(score, point)` of a list of cells.
    pub open spec fn points_of(&self, ctx: QueryCtx, q: Seq<i8>, data: Seq<i8>, cells: Seq<u32>) -> Seq<(i32, u32)> {
        by_point(self.plain_pool(ctx, q, data, cells), self.slot_orig@)
    }

    /// State of an adaptive scan after at most `n` cells.
    pub open spec fn paced(&self, ctx: QueryCtx, q: Seq<i8>, data: Seq<i8>, cells: Seq<u32>, k: nat, win: nat, patience: nat, n: nat) -> Pace
        decreases n,
    {
        if n == 0 {
            Pace { prev: i32::MAX as int, stall: 0, used: 0, stop: false }
        } else {
            let s = self.paced(ctx, q, data, cells, k, win, patience, (n - 1) as nat);
            if s.stop {
                s
            } else {
                look(s, self.points_of(ctx, q, data, cells.take(n as int)), k, win, patience, n)
            }
        }
    }

    /// Append the candidates `(score, point)` of one cell.
    fn push_points(&self, ds: &I8Bin<'_>, q: &[i8], cell: u32, ctx: &QueryCtx, pool: &mut Vec<(i32, u32)>)
        requires
            self.main_ok(),
            self.ctx_fits(*ctx),
            cell < self.nc(),
            self.takes(ds, q@),
        ensures
            final(pool)@ == old(pool)@ + by_point(self.cell_lanes(*ctx, q@, ds.data@, cell as int), self.slot_orig@),
    {
        let scores = self.score_cell(ds, q, cell, ctx, false);
        proof {
            self.lemma_cell_range(cell as int);
        }
        let starts: usize = self.cell_bstart.len();
        let total: usize = self.slot_orig.len();
        let base: usize = 16 * self.cell_bstart[cell as usize] as usize;
        let m: usize = scores.len();
        let ghost pool0 = pool@;
        let mut j: usize = 0;
        assert(pool@ =~= pool0 + by_point(lane_pool(scores@, base as nat, self.slot_orig@, 0), self.slot_orig@));
        while j < m
            invariant
                j <= m,
                m == scores@.len(),
                base + m <= total,
                total == self.slot_orig@.len(),
                total <= u32::MAX,
                pool@ == pool0 + by_point(lane_pool(scores@, base as nat, self.slot_orig@, j as nat), self.slot_orig@),
            decreases m - j,
        {
            let o: u32 = self.slot_orig[base + j];
            if o != NO_POINT {
                pool.push((scores[j], o));
                proof {
                    let l0 = lane_pool(scores@, base as nat, self.slot_orig@, j as nat);
                    let l1 = lane_pool(scores@, base as nat, self.slot_orig@, (j + 1) as nat);
                    assert(l1 == l0.push((scores@[j as int], (base + j) as u32)));
                    assert(by_point(l1, self.slot_orig@) =~= by_point(l0, self.slot_orig@).push((scores@[j as int], o)));
                    assert(pool@ =~= pool0 + by_point(l1, self.slot_orig@));
                }
            }
            j = j + 1;
        }
    }

    proof fn lemma_points_step(&self, ctx: QueryCtx, q: Seq<i8>, data: Seq<i8>, cells: Seq<u32>, i: int)
        requires
            0 <= i < cells.len(),
        ensures
            self.points_of(ctx, q, data, cells.take(i + 1)) == self.points_of(ctx, q, data, cells.take(i)) + by_point(self.cell_lanes(ctx, q, data, cells[i] as int), self.slot_orig@),
    {
        assert(cells.take(i + 1).drop_last() =~= cells.take(i));
        lemma_by_point_add(self.plain_pool(ctx, q, data, cells.take(i)), self.cell_lanes(ctx, q, data, cells[i] as int), self.slot_orig@);
    }

    proof fn lemma_points_stored(&self, ds: &I8Bin<'_>, ctx: QueryCtx, q: Seq<i8>, cells: Seq<u32>, t: nat)
        requires
            self.main_ok(),
            self.rows_in(ds),
            self.cells_exist(cells),
        ensures
            ({
                let pool = capped(self.points_of(ctx, q, ds.data@, cells), t);
                forall|i: int| 0 <= i < pool.len() ==> ((#[trigger] pool[i]).1 + 1) * self.d <= ds.data@.len()
            }),
    {
        let all = self.points_of(ctx, q, ds.data@, cells);
        let pool = capped(all, t);
        self.lemma_pool_live(ctx, q, ds.data@, cells);
        lemma_smallest(all, t);
        let plain = self.plain_pool(ctx, q, ds.data@, cells);
        assert forall|i: int| 0 <= i < pool.len() implies ((#[trigger] pool[i]).1 + 1) * self.d <= ds.data@.len() by {
            assert(all.contains(pool[i])) by {
                if t == 0 {
                    assert(all[i] == pool[i]);
                }
            }
            let x = choose|x: int| 0 <= x < all.len() && all[x] == pool[i];
            assert(plain[x].1 < self.slot_orig@.len());
            let o = pool[i].1 as int;
            assert(self.slot_orig@[plain[x].1 as int] == o);
            lemma_row_in_range(o, self.d as int, ds.nb as int, ds.data@.len() as int);
            assert((o + 1) * self.d as int == o * self.d as int + self.d as int) by (nonlinear_arith);
        }
    }

    /// The `k` nearest by exact distance among the best `t` of a pool of `(score, point)`.
    pub open spec fn nearest_points(&self, pool: Seq<(i32, u32)>, q: Seq<i8>, data: Seq<i8>, t: nat, k: nat) -> Seq<u32> {
        let cut = capped(pool, t);
        first_ids(nearest(scored_ids(cut, data, self.d as nat, q), (if 4 * k < cut.len() { 4 * k } else { cut.len() }) as nat), k)
    }

    /// Search that reranks from the base rows of `ds` in place of the rows of the index.
    pub fn search_ds(&self, ds: &I8Bin<'_>, q: &[i8], qn: &[i8], p: usize, t: usize, k: usize) -> (r: Vec<u32>)
        requires
            self.main_ok(),
            self.router.takes(q@, qn@),
            p >= 1,
            q@.len() == self.d,
            self.rows_in(ds),
            k <= usize::MAX / 4,
        ensures
            r@ == self.nearest_points(self.points_of(self.comp.prepared(q@), q@, ds.data@, self.router.probed(q@, qn@, p as nat)), q@, ds.data@, t as nat, k as nat),
    {
        let cells = self.router.probe(q, qn, p);
        let ctx = self.comp.prepare_query(q);
        let n: usize = cells.len();
        let mut pool: Vec<(i32, u32)> = Vec::new();
        let mut i: usize = 0;
        assert(cells@.take(0) =~= Seq::<u32>::empty());
        assert(pool@ =~= self.points_of(ctx, q@, ds.data@, cells@.take(0)));
        while i < n
            invariant
                i <= n,
                n == cells@.len(),
                self.main_ok(),
                self.ctx_fits(ctx),
                self.cells_exist(cells@),
                self.takes(ds, q@),
                pool@ == self.points_of(ctx, q@, ds.data@, cells@.take(i as int)),
            decreases n - i,
        {
            self.push_points(ds, q, cells[i], &ctx, &mut pool);
            proof {
                self.lemma_points_step(ctx, q@, ds.data@, cells@, i as int);
            }
            i = i + 1;
        }
        proof {
            assert(cells@.take(n as int) =~= cells@);
            self.lemma_points_stored(ds, ctx, q@, cells@, t as nat);
        }
        if t > 0 {
            keep_smallest(&mut pool, t);
        }
        assert(pool@ == capped(self.points_of(ctx, q@, ds.data@, cells@), t as nat));
        rerank_survivors(ds.data, self.d, q, &pool, k)
    }

    /// Probe cells nearest first, and stop once the `k`-th best approximate score has not improved for
    /// `patience` looks, one look every `win` cells. Returns the `k` nearest points and the number of
    /// cells scanned.
    pub fn search_adaptive(&self, ds: &I8Bin<'_>, q: &[i8], qn: &[i8], max_p: usize, t: usize, k: usize, win: usize, patience: usize) -> (r: (Vec<u32>, usize))
        requires
            self.main_ok(),
            self.router.takes(q@, qn@),
            max_p >= 1,
            q@.len() == self.d,
            self.rows_in(ds),
            1 <= k <= usize::MAX / 4,
            win >= 1,
        ensures
            ({
                let cells = self.router.probed(q@, qn@, max_p as nat);
                let ctx = self.comp.prepared(q@);
                let pace = self.paced(ctx, q@, ds.data@, cells, k as nat, win as nat, patience as nat, cells.len());
                &&& r.1 == pace.used
                &&& r.0@ == self.nearest_points(self.points_of(ctx, q@, ds.data@, cells.take(pace.used as int)), q@, ds.data@, t as nat, k as nat)
            }),
    {
        let cells = self.router.probe(q, qn, max_p);
        let ctx = self.comp.prepare_query(q);
        let n: usize = cells.len();
        let mut pool: Vec<(i32, u32)> = Vec::new();
        let mut best: Vec<(i32, u32)> = Vec::new();
        let mut prev: i32 = i32::MAX;
        let mut stall: usize = 0;
        let mut used: usize = 0;
        let mut stop: bool = false;
        let mut i: usize = 0;
        let ghost (kn, wn, pn) = (k as nat, win as nat, patience as nat);
        proof {
            assert(cells@.take(0) =~= Seq::<u32>::empty());
            assert(pool@ =~= self.points_of(ctx, q@, ds.data@, cells@.take(0)));
            lemma_smallest(pool@, kn);
            assert(best@ =~= smallest(pool@, kn));
        }
        while i < n && !stop
            invariant
                i <= n,
                n == cells@.len(),
                kn == k,
                wn == win,
                pn == patience,
                k >= 1,
                win >= 1,
                self.main_ok(),
                self.ctx_fits(ctx),
                self.cells_exist(cells@),
                self.takes(ds, q@),
                used == i,
                stall <= i,
                pool@ == self.points_of(ctx, q@, ds.data@, cells@.take(i as int)),
                best@ == smallest(pool@, kn),
                self.paced(ctx, q@, ds.data@, cells@, kn, wn, pn, i as nat) == (Pace { prev: prev as int, stall: stall as nat, used: used as nat, stop }),
            decreases n - i,
        {
            let ghost pool0 = pool@;
            let cell: u32 = cells[i];
            self.push_points(ds, q, cell, &ctx, &mut pool);
            let ghost part = by_point(self.cell_lanes(ctx, q@, ds.data@, cell as int), self.slot_orig@);
            self.push_points(ds, q, cell, &ctx, &mut best);
            keep_smallest(&mut best, k);
            proof {
                lemma_smallest_of_capped(pool0, part, kn);
                self.lemma_points_step(ctx, q@, ds.data@, cells@, i as int);
                lemma_smallest(pool@, kn);
            }
            i = i + 1;
            used = i;
            if i % win == 0 && best.len() == k {
                let kth: i32 = best[k - 1].0;
                if kth >= prev {
                    stall = stall + 1;
                } else {
                    stall = 0;
                }
                prev = kth;
                stop = stall >= patience;
            }
        }
        proof {
            self.lemma_paced_stays(ctx, q@, ds.data@, cells@, kn, wn, pn, i as nat, n as nat);
            let part = cells@.take(i as int);
            assert forall|j: int| 0 <= j < part.len() implies #[trigger] part[j] < self.nc() by {
                assert(part[j] == cells@[j]);
            }
            self.lemma_points_stored(ds, ctx, q@, part, t as nat);
        }
        if t > 0 {
            keep_smallest(&mut pool, t);
        }
        assert(pool@ == capped(self.points_of(ctx, q@, ds.data@, cells@.take(i as int)), t as nat));
        (rerank_survivors(ds.data, self.d, q, &pool, k), used)
    }

    proof fn lemma_paced_stays(&self, ctx: QueryCtx, q: Seq<i8>, data: Seq<i8>, cells: Seq<u32>, k: nat, win: nat, patience: nat, n: nat, e: nat)
        requires
            n <= e,
            n == e || self.paced(ctx, q, data, cells, k, win, patience, n).stop,
        ensures
            self.paced(ctx, q, data, cells, k, win, patience, e) == self.paced(ctx, q, data, cells, k, win, patience, n),
        decreases e,
    {
        if n < e {
            self.lemma_paced_stays(ctx, q, data, cells, k, win, patience, n, (e - 1) as nat);
        }
    }

    /// Candidates of a list of cells: the slots that hold a point.
    pub fn cell_cand_count(&self, cells: &[u32]) -> (r: usize)
        requires
            self.main_ok(),
            self.cells_exist(cells@),
            occupied(self.cell_bstart@, self.slot_orig@, cells@) <= usize::MAX,
        ensures
            r == occupied(self.cell_bstart@, self.slot_orig@, cells@),
    {
        let n: usize = cells.len();
        let starts: usize = self.cell_bstart.len();
        let total: usize = self.slot_orig.len();
        let mut sum: usize = 0;
        let mut i: usize = 0;
        while i < n
            invariant
                i <= n,
                n == cells@.len(),
                starts == self.cell_bstart@.len(),
                total == self.slot_orig@.len(),
                self.main_ok(),
                self.cells_exist(cells@),
                occupied(self.cell_bstart@, self.slot_orig@, cells@) <= usize::MAX,
                sum == occupied(self.cell_bstart@, self.slot_orig@, cells@.take(i as int)),
            decreases n - i,
        {
            let c: usize = cells[i] as usize;
            proof {
                self.lemma_cell_range(c as int);
                assert(cells@.take(i + 1).drop_last() =~= cells@.take(i as int));
                lemma_occupied_grows(self.cell_bstart@, self.slot_orig@, cells@, (i + 1) as int);
            }
            let s: usize = 16 * self.cell_bstart[c] as usize;
            let e: usize = 16 * self.cell_bstart[c + 1] as usize;
            let ghost before = sum;
            let mut j: usize = s;
            while j < e
                invariant
                    s <= j <= e,
                    e <= total,
                    total == self.slot_orig@.len(),
                    before + held(self.slot_orig@, s as int, e as int) <= usize::MAX,
                    sum == before + held(self.slot_orig@, s as int, j as int),
                decreases e - j,
            {
                proof {
                    lemma_held_grows(self.slot_orig@, s as int, (j + 1) as int, e as int);
                }
                if self.slot_orig[j] != NO_POINT {
                    sum = sum + 1;
                }
                j = j + 1;
            }
            i = i + 1;
        }
        assert(cells@.take(n as int) =~= cells@);
        sum
    }

    /// The interleaved copy is scanned.
    pub open spec fn grouped(&self, ctx: QueryCtx, use512: bool) -> bool {
        use512 && self.blocks_il@.len() > 0 && !self.comp.raw_rows() && ctx is Pq8
    }

    /// Checksum over a list of cells.
    pub open spec fn checksum(&self, ctx: QueryCtx, q: Seq<i8>, data: Seq<i8>, cells: Seq<u32>, use512: bool) -> i64
        decreases cells.len(),
    {
        if cells.len() == 0 {
            0
        } else {
            let scores = self.cell_scores(ctx, q, data, cells.last() as int);
            lead_sum(scores, self.checksum(ctx, q, data, cells.drop_last(), use512), self.grouped(ctx, use512), scores.len() / 16)
        }
    }

    /// Run the scoring kernels over the cells and consume the scores in a checksum: the first score of
    /// every kernel call, added up.
    pub fn scan_kernel_bench(&self, ds: &I8Bin<'_>, q: &[i8], cells: &[u32], ctx: &QueryCtx, use512: bool) -> (r: i64)
        requires
            self.main_ok(),
            self.ctx_fits(*ctx),
            self.cells_exist(cells@),
            self.takes(ds, q@),
        ensures
            r == self.checksum(*ctx, q@, ds.data@, cells@, use512),
    {
        let n: usize = cells.len();
        let grouped = use512 && self.blocks_il.len() > 0 && !self.comp.needs_raw_rows() && matches!(ctx, QueryCtx::Pq8 { .. });
        let mut acc: i64 = 0;
        let mut i: usize = 0;
        assert(cells@.take(0) =~= Seq::<u32>::empty());
        while i < n
            invariant
                i <= n,
                n == cells@.len(),
                self.main_ok(),
                self.ctx_fits(*ctx),
                self.cells_exist(cells@),
                self.takes(ds, q@),
                grouped == self.grouped(*ctx, use512),
                acc == self.checksum(*ctx, q@, ds.data@, cells@.take(i as int), use512),
            decreases n - i,
        {
            let scores = self.score_cell(ds, q, cells[i], ctx, use512);
            let ghost acc0 = acc;
            let slen: usize = scores.len();
            let nb: usize = slen / 16;
            let mut b: usize = 0;
            while b < nb
                invariant
                    b <= nb,
                    nb == slen / 16,
                    slen == scores@.len(),
                    acc == lead_sum(scores@, acc0, grouped, b as nat),
                decreases nb - b,
            {
                if !(grouped && b < 4 * (nb / 4) && b % 4 != 0) {
                    acc = acc.wrapping_add(scores[16 * b] as i64);
                }
                b = b + 1;
            }
            assert(cells@.take(i + 1).drop_last() =~= cells@.take(i as int));
            i = i + 1;
        }
        assert(cells@.take(n as int) =~= cells@);
        acc
    }

    /// The prepared query.
    pub fn prepare_query_pub(&self, q: &[i8]) -> (r: QueryCtx)
        requires
            self.main_ok(),
            q@.len() == self.d,
        ensures
            r == self.comp.prepared(q@),
            self.ctx_fits(r),
    {
        self.comp.prepare_query(q)
    }
}

/// `acc` and the first score of each kernel call over the first `n` blocks of a cell, added up; a
/// kernel call covers 4 blocks of a full group where blocks are grouped, else one block.
pub open spec fn lead_sum(scores: Seq<i32>, acc: i64, grouped: bool, n: nat) -> i64
    decreases n,
{
    if n == 0 {
        acc
    } else {
        let prev = lead_sum(scores, acc, grouped, (n - 1) as nat);
        let b = n - 1;
        if grouped && b < 4 * ((scores.len() / 16) / 4) && b % 4 != 0 {
            prev
        } else {
            prev.wrapping_add(scores[16 * b] as i64)
        }
    }
}

/// How many points the slots of a list of cells hold.
pub open spec fn occupied(bstart: Seq<u32>, slot_orig: Seq<u32>, cells: Seq<u32>) -> nat
    decreases cells.len(),
{
    if cells.len() == 0 {
        0
    } else {
        occupied(bstart, slot_orig, cells.drop_last()) + held(slot_orig, 16 * bstart[cells.last() as int], 16 * bstart[cells.last() + 1])
    }
}

proof fn lemma_held_grows(slot_orig: Seq<u32>, from: int, mid: int, to: int)
    requires
        from <= mid <= to,
    ensures
        held(slot_orig, from, mid) <= held(slot_orig, from, to),
    decreases to - mid,
{
    if mid < to {
        lemma_held_grows(slot_orig, from, mid, to - 1);
    }
}

proof fn lemma_occupied_grows(bstart: Seq<u32>, slot_orig: Seq<u32>, cells: Seq<u32>, i: int)
    requires
        0 <= i <= cells.len(),
    ensures
        occupied(bstart, slot_orig, cells.take(i)) <= occupied(bstart, slot_orig, cells),
    decreases cells.len(),
{
    if i == cells.len() {
        assert(cells.take(i) =~= cells);
    } else {
        lemma_occupied_grows(bstart, slot_orig, cells.drop_last(), i);
        assert(cells.drop_last().take(i) =~= cells.take(i));
    }
}

proof fn lemma_patient<R: Router, C: Compressor>(ix: &Index<R, C>, ctx: QueryCtx, q: Seq<i8>, data: Seq<i8>, cells: Seq<u32>, k: nat, win: nat, patience: nat, n: nat)
    requires
        n < patience,
    ensures
        ({
            let s = ix.paced(ctx, q, data, cells, k, win, patience, n);
            !s.stop && s.used == n && s.stall <= n
        }),
    decreases n,
{
    if n > 0 {
        lemma_patient(ix, ctx, q, data, cells, k, win, patience, (n - 1) as nat);
    }
}

/// A search that is patient beyond the number of its cells scans all of them, and answers what the
/// search with a fixed number of cells answers.
pub proof fn law_patient_search_scans_every_cell<R: Router, C: Compressor>(
    ix: &Index<R, C>,
    ctx: QueryCtx,
    q: Seq<i8>,
    data: Seq<i8>,
    cells: Seq<u32>,
    t: nat,
    k: nat,
    win: nat,
    patience: nat,
)
    requires
        cells.len() < patience,
    ensures
        ({
            let used = ix.paced(ctx, q, data, cells, k, win, patience, cells.len()).used;
            &&& used == cells.len()
            &&& ix.nearest_points(ix.points_of(ctx, q, data, cells.take(used as int)), q, data, t, k) == ix.nearest_points(ix.points_of(ctx, q, data, cells), q, data, t, k)
        }),
{
    lemma_patient(ix, ctx, q, data, cells, k, win, patience, cells.len());
    assert(cells.take(cells.len() as int) =~= cells);
}

} // verus!
