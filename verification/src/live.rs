//! Search over the built index and the append buffer together.
use vstd::prelude::*;
use vstd::slice::slice_subrange;
use crate::compress::{block_scores, Compressor, QueryCtx};
use crate::ibin::I8Bin;
use crate::index::{Index, ScanKnobs};
use crate::layout::{block_at, blocks_for, lemma_block_in_range};
use crate::order::{ascending, keep_smallest, lemma_ascending, lemma_smallest, sort_ascending};
use crate::rerank::{
    distinct_ids, law_distinct_ids, lemma_nearest, nearest, rerank_contig_pairs, rescored, slots_exist, take_distinct, NO_POINT,
};
use crate::router::Router;
use crate::scan::gathered;
use crate::search::capped;
use crate::simd::{l2, l2_i8, lemma_row_in_range, row_of};
use crate::stream::emptied;

verus! {

/// Candidates `(score, number)` of the first `n` appended points of a cell; deleted ones drop out.
pub open spec fn ins_lanes(scores: Seq<i32>, gidx: Seq<u32>, orig: Seq<u32>, n: nat) -> Seq<(i32, u32)>
    decreases n,
{
    if n == 0 {
        Seq::empty()
    } else {
        let prev = ins_lanes(scores, gidx, orig, (n - 1) as nat);
        let g = gidx[n - 1];
        if orig[g as int] != NO_POINT {
            prev.push((scores[n - 1], g))
        } else {
            prev
        }
    }
}

pub proof fn lemma_ins_lanes(scores: Seq<i32>, gidx: Seq<u32>, orig: Seq<u32>, n: nat)
    requires
        n <= gidx.len(),
        forall|i: int| 0 <= i < gidx.len() ==> #[trigger] gidx[i] < orig.len(),
    ensures
        slots_exist(ins_lanes(scores, gidx, orig, n), orig),
        forall|i: int| 0 <= i < n && orig[#[trigger] gidx[i] as int] != NO_POINT ==> ins_lanes(scores, gidx, orig, n).contains((scores[i], gidx[i])),
    decreases n,
{
    if n > 0 {
        lemma_ins_lanes(scores, gidx, orig, (n - 1) as nat);
        let prev = ins_lanes(scores, gidx, orig, (n - 1) as nat);
        let all = ins_lanes(scores, gidx, orig, n);
        assert(gidx[n - 1] < orig.len());
        assert forall|i: int| 0 <= i < n && orig[#[trigger] gidx[i] as int] != NO_POINT implies all.contains((scores[i], gidx[i])) by {
            if i < n - 1 {
                assert(prev.contains((scores[i], gidx[i])));
                let k = choose|k: int| 0 <= k < prev.len() && prev[k] == (scores[i], gidx[i]);
                assert(all[k] == prev[k]);
            } else {
                assert(all[all.len() - 1] == (scores[i], gidx[i]));
            }
        }
    }
}

impl<R: Router, C: Compressor> Index<R, C> {
    /// Scores of the appended points of cell `c`: exact where rows are scanned or nothing is encoded,
    /// else those of their blocks.
    pub open spec fn ins_scores(&self, ctx: QueryCtx, q: Seq<i8>, c: int) -> Seq<i32> {
        let gidx = self.ins_gidx@[c]@;
        if self.comp.raw_rows() || self.bb == 0 {
            Seq::new(gidx.len(), |i: int| l2(q, row_of(self.ins_raw@, self.d as nat, gidx[i] as int)) as i32)
        } else {
            Seq::new(gidx.len(), |i: int| self.ins_block_scores(ctx, c, i / 16)[i % 16])
        }
    }

    /// Scores of block `b` of the appended points of cell `c`.
    pub open spec fn ins_block_scores(&self, ctx: QueryCtx, c: int, b: int) -> Seq<i32> {
        let block = block_at(self.ins_blocks@[c]@, self.bb as nat, b);
        block_scores(self.comp.dim(), self.comp.subspaces(), ctx, self.comp.own_scores(ctx, block), block, Seq::empty(), Seq::empty())
    }

    /// Candidates `(score, number)` of the appended points of one cell.
    pub open spec fn ins_cell_pool(&self, ctx: QueryCtx, q: Seq<i8>) -> spec_fn(u32) -> Seq<(i32, u32)> {
        |c: u32| ins_lanes(self.ins_scores(ctx, q, c as int), self.ins_gidx@[c as int]@, self.ins_orig@, self.ins_gidx@[c as int]@.len())
    }

    /// Candidates `(score, number)` of the appended points of a list of cells.
    pub open spec fn ins_pool(&self, ctx: QueryCtx, q: Seq<i8>, cells: Seq<u32>) -> Seq<(i32, u32)> {
        gathered(self.ins_cell_pool(ctx, q), cells)
    }

    fn score_appended(&self, q: &[i8], c: usize, ctx: &QueryCtx) -> (r: Vec<i32>)
        requires
            self.wf(),
            self.ctx_fits(*ctx),
            c < self.nc(),
            q@.len() == self.d,
            self.ins_dirty@.len() == 0,
        ensures
            r@ == self.ins_scores(*ctx, q@, c as int),
    {
        let n: usize = self.ins_gidx[c].len();
        let ghost all = self.ins_scores(*ctx, q@, c as int);
        let d: usize = self.d;
        let mut out: Vec<i32> = Vec::with_capacity(n);
        let mut i: usize = 0;
        if self.comp.needs_raw_rows() || self.bb == 0 {
            let rlen: usize = self.ins_raw.len();
            while i < n
                invariant
                    i <= n,
                    n == self.ins_gidx@[c as int]@.len(),
                    self.wf(),
                    c < self.nc(),
                    self.comp.raw_rows() || self.bb == 0,
                    q@.len() == self.d,
                    d == self.d,
                    rlen == self.ins_raw@.len(),
                    all == self.ins_scores(*ctx, q@, c as int),
                    out@.len() == i,
                    forall|j: int| 0 <= j < i ==> #[trigger] out@[j] == all[j],
                decreases n - i,
            {
                let g: usize = self.ins_gidx[c][i] as usize;
                proof {
                    assert(self.ins_gidx@[c as int]@[i as int] < self.ins_orig@.len());
                    lemma_row_in_range(g as int, d as int, self.ins_orig@.len() as int, rlen as int);
                }
                let row: &[i8] = slice_subrange(self.ins_raw.as_slice(), g * d, g * d + d);
                out.push(l2_i8(q, row));
                i = i + 1;
            }
        } else {
            let none: [i8; 0] = [];
            let no_rows: Vec<&[i8]> = Vec::new();
            let mut out16: [i32; 16] = [0; 16];
            let bb: usize = self.bb;
            let blen: usize = self.ins_blocks[c].len();
            let ghost nb = blocks_for(n as nat);
            proof {
                assert(self.encoded(c as int));
                assert(none@ =~= Seq::<i8>::empty());
                assert(crate::compress::row_views(no_rows@) =~= Seq::<Seq<i8>>::empty());
            }
            while i < n
                invariant
                    i <= n,
                    n == self.ins_gidx@[c as int]@.len(),
                    self.wf(),
                    self.ctx_fits(*ctx),
                    c < self.nc(),
                    !self.comp.raw_rows(),
                    self.bb > 0,
                    bb == self.bb,
                    blen == self.ins_blocks@[c as int]@.len(),
                    nb == blocks_for(n as nat),
                    blen == nb * bb,
                    none@ == Seq::<i8>::empty(),
                    crate::compress::row_views(no_rows@) == Seq::<Seq<i8>>::empty(),
                    all == self.ins_scores(*ctx, q@, c as int),
                    out@.len() == i,
                    i % 16 == 0 || i == n,
                    forall|j: int| 0 <= j < i ==> #[trigger] out@[j] == all[j],
                decreases n - i,
            {
                let b: usize = i / 16;
                proof {
                    lemma_block_in_range(b as int, bb as int, nb as int);
                }
                let block: &[u8] = slice_subrange(self.ins_blocks[c].as_slice(), b * bb, b * bb + bb);
                self.comp.scan_block(block, ctx, none.as_slice(), &no_rows, &mut out16);
                assert(out16@ == self.ins_block_scores(*ctx, c as int, b as int));
                let cnt: usize = if n - i < 16 { n - i } else { 16 };
                let mut j: usize = 0;
                while j < cnt
                    invariant
                        j <= cnt,
                        cnt <= 16,
                        i + cnt <= n,
                        i == 16 * b,
                        n == self.ins_gidx@[c as int]@.len(),
                        !self.comp.raw_rows(),
                        self.bb > 0,
                        all == self.ins_scores(*ctx, q@, c as int),
                        out16@ == self.ins_block_scores(*ctx, c as int, b as int),
                        out@.len() == i + j,
                        forall|e: int| 0 <= e < i + j ==> #[trigger] out@[e] == all[e],
                    decreases cnt - j,
                {
                    assert((i + j) as int / 16 == b && (i + j) as int % 16 == j);
                    out.push(out16[j]);
                    j = j + 1;
                }
                i = i + cnt;
            }
        }
        assert(out@ =~= all);
        out
    }

    /// Candidates `(score, number)` of the appended points of the probed cells.
    pub fn scan_ins_pool(&self, q: &[i8], cells: &[u32], ctx: &QueryCtx) -> (pool: Vec<(i32, u32)>)
        requires
            self.wf(),
            self.ctx_fits(*ctx),
            self.cells_exist(cells@),
            q@.len() == self.d,
            self.ins_dirty@.len() == 0,
        ensures
            pool@ == self.ins_pool(*ctx, q@, cells@),
            slots_exist(pool@, self.ins_orig@),
    {
        let n: usize = cells.len();
        let mut pool: Vec<(i32, u32)> = Vec::new();
        let mut i: usize = 0;
        assert(cells@.take(0) =~= Seq::<u32>::empty());
        while i < n
            invariant
                i <= n,
                n == cells@.len(),
                self.wf(),
                self.ctx_fits(*ctx),
                self.cells_exist(cells@),
                q@.len() == self.d,
                self.ins_dirty@.len() == 0,
                pool@ == self.ins_pool(*ctx, q@, cells@.take(i as int)),
                slots_exist(pool@, self.ins_orig@),
            decreases n - i,
        {
            let c: usize = cells[i] as usize;
            let scores = self.score_appended(q, c, ctx);
            let m: usize = self.ins_gidx[c].len();
            let ghost gidx = self.ins_gidx@[c as int]@;
            let ghost pool0 = pool@;
            proof {
                assert forall|e: int| 0 <= e < gidx.len() implies #[trigger] gidx[e] < self.ins_orig@.len() by {
                    assert(self.ins_gidx@[c as int]@[e] < self.ins_orig@.len());
                }
                lemma_ins_lanes(scores@, gidx, self.ins_orig@, m as nat);
            }
            let mut j: usize = 0;
            assert(pool@ =~= pool0 + ins_lanes(scores@, gidx, self.ins_orig@, 0));
            while j < m
                invariant
                    j <= m,
                    m == gidx.len(),
                    gidx == self.ins_gidx@[c as int]@,
                    c < self.ins_gidx@.len(),
                    m == scores@.len(),
                    forall|e: int| 0 <= e < gidx.len() ==> #[trigger] gidx[e] < self.ins_orig@.len(),
                    pool@ == pool0 + ins_lanes(scores@, gidx, self.ins_orig@, j as nat),
                decreases m - j,
            {
                let g: u32 = self.ins_gidx[c][j];
                assert(g == gidx[j as int]);
                if self.ins_orig[g as usize] != NO_POINT {
                    pool.push((scores[j], g));
                    assert(pool@ =~= pool0 + ins_lanes(scores@, gidx, self.ins_orig@, (j + 1) as nat));
                }
                j = j + 1;
            }
            proof {
                assert(cells@.take(i + 1).drop_last() =~= cells@.take(i as int));
                let lanes = ins_lanes(scores@, gidx, self.ins_orig@, m as nat);
                assert forall|e: int| 0 <= e < pool@.len() implies (#[trigger] pool@[e]).1 < self.ins_orig@.len() by {
                    if e < pool0.len() {
                        assert(pool@[e] == pool0[e]);
                    } else {
                        assert(pool@[e] == lanes[e - pool0.len()]);
                    }
                }
            }
            i = i + 1;
        }
        assert(cells@.take(n as int) =~= cells@);
        pool
    }

    /// Best points of the built index among the cells, as `(exact score, point)`.
    pub open spec fn built_best(&self, q: Seq<i8>, data: Seq<i8>, cells: Seq<u32>, t: nat, k: nat, knobs: ScanKnobs) -> Seq<(i32, u32)> {
        let pool = self.survivors_of(self.comp.prepared(q), q, data, cells, t, (ScanKnobs { fused: false, sort_cells: false, ..knobs }));
        nearest(rescored(pool, self.slot_orig@, self.raw@, self.d as nat, q, self.raw_orig_indexed, knobs.ip, pool.len()), (if 4 * k < pool.len() { 4 * k } else { pool.len() }) as nat)
    }

    /// Best appended points among the cells, as `(exact score, point)`.
    pub open spec fn appended_best(&self, q: Seq<i8>, cells: Seq<u32>, t: nat, k: nat, ip: bool) -> Seq<(i32, u32)> {
        let pool = capped(self.ins_pool(self.comp.prepared(q), q, cells), t);
        nearest(rescored(pool, self.ins_orig@, self.ins_raw@, self.d as nat, q, false, ip, pool.len()), (if 4 * k < pool.len() { 4 * k } else { pool.len() }) as nat)
    }

    /// What a search over both stores returns.
    pub open spec fn stream_found(&self, q: Seq<i8>, data: Seq<i8>, cells: Seq<u32>, t: nat, k: nat, knobs: ScanKnobs) -> Seq<u32> {
        let built = self.built_best(q, data, cells, t, k, knobs);
        let all = if self.ins_raw@.len() > 0 {
            built + self.appended_best(q, cells, t, k, knobs.ip)
        } else {
            built
        };
        distinct_ids(ascending(all), k, all.len())
    }

    /// The `k` nearest points of the built index and the append buffer together, over the probed
    /// cells.
    pub fn search_stream(&self, ds: &I8Bin<'_>, q: &[i8], qn: &[i8], p: usize, t: usize, k: usize, knobs: ScanKnobs) -> (r: Vec<u32>)
        requires
            self.wf(),
            self.ins_dirty@.len() == 0,
            self.router.takes(q@, qn@),
            p >= 1,
            self.takes(ds, q@),
            self.scan_fits(self.router.probed(q@, qn@, p as nat), t as nat, (ScanKnobs { fused: false, sort_cells: false, ..knobs })),
            k <= usize::MAX / 4,
        ensures
            r@ == self.stream_found(q@, ds.data@, self.router.probed(q@, qn@, p as nat), t as nat, k as nat, knobs),
    {
        let cells = self.router.probe(q, qn, p);
        let ctx = self.comp.prepare_query(q);
        let plain = ScanKnobs { fused: false, sort_cells: false, ..knobs };
        let pool = self.survivors(ds, q, cells.as_slice(), &ctx, t, plain);
        proof {
            self.lemma_rows_stored(pool@);
        }
        let mut cand = rerank_contig_pairs(self.raw.as_slice(), self.d, self.slot_orig.as_slice(), q, &pool, k, self.raw_orig_indexed, knobs.ip);
        if self.ins_raw.len() > 0 {
            let mut bpool = self.scan_ins_pool(q, cells.as_slice(), &ctx);
            let ghost all = bpool@;
            if t > 0 {
                keep_smallest(&mut bpool, t);
            }
            proof {
                lemma_smallest(all, t as nat);
                let (d, n) = (self.d as int, self.ins_orig@.len() as int);
                assert forall|i: int| 0 <= i < bpool@.len() implies (#[trigger] bpool@[i]).1 < self.ins_orig@.len() && (bpool@[i].1 + 1) * self.d <= self.ins_raw@.len() by {
                    assert(all.contains(bpool@[i])) by {
                        if t == 0 {
                            assert(all[i] == bpool@[i]);
                        }
                    }
                    let s = bpool@[i].1 as int;
                    assert((s + 1) * d <= n * d) by (nonlinear_arith)
                        requires
                            s + 1 <= n,
                            0 <= d,
                    ;
                }
            }
            let bpairs = rerank_contig_pairs(self.ins_raw.as_slice(), self.d, self.ins_orig.as_slice(), q, &bpool, k, false, knobs.ip);
            let m: usize = bpairs.len();
            let ghost head = cand@;
            let mut i: usize = 0;
            while i < m
                invariant
                    i <= m,
                    m == bpairs@.len(),
                    cand@ =~= head + bpairs@.take(i as int),
                decreases m - i,
            {
                cand.push(bpairs[i]);
                i = i + 1;
            }
            assert(bpairs@.take(m as int) =~= bpairs@);
        }
        let ghost all = cand@;
        sort_ascending(&mut cand);
        proof {
            lemma_ascending(all);
        }
        take_distinct(&cand, k)
    }
}

proof fn lemma_rescored_ids(pool: Seq<(i32, u32)>, orig: Seq<u32>, raw: Seq<i8>, d: nat, q: Seq<i8>, by_orig: bool, ip: bool, n: nat, id: u32)
    requires
        n <= pool.len(),
        slots_exist(pool, orig),
        !orig.contains(id),
    ensures
        forall|i: int| 0 <= i < rescored(pool, orig, raw, d, q, by_orig, ip, n).len() ==> (#[trigger] rescored(pool, orig, raw, d, q, by_orig, ip, n)[i]).1 != id,
    decreases n,
{
    if n > 0 {
        lemma_rescored_ids(pool, orig, raw, d, q, by_orig, ip, (n - 1) as nat, id);
        let slot = pool[n - 1].1;
        assert(slot < orig.len());
        assert(orig.contains(orig[slot as int]));
        let prev = rescored(pool, orig, raw, d, q, by_orig, ip, (n - 1) as nat);
        let all = rescored(pool, orig, raw, d, q, by_orig, ip, n);
        assert forall|i: int| 0 <= i < all.len() implies (#[trigger] all[i]).1 != id by {
            if i < prev.len() {
                assert(all[i] == prev[i]);
            }
        }
    }
}

proof fn lemma_nearest_ids(cands: Seq<(i32, u32)>, m: nat, id: u32)
    requires
        forall|i: int| 0 <= i < cands.len() ==> (#[trigger] cands[i]).1 != id,
    ensures
        forall|i: int| 0 <= i < nearest(cands, m).len() ==> (#[trigger] nearest(cands, m)[i]).1 != id,
{
    if m > 0 {
        lemma_nearest(cands, m, cands.len());
        let h = nearest(cands, m);
        assert forall|i: int| 0 <= i < h.len() implies (#[trigger] h[i]).1 != id by {
            let c = choose|c: int| 0 <= c < cands.len() && #[trigger] cands[c] == h[i];
        }
    }
}

proof fn lemma_capped_exist(pool: Seq<(i32, u32)>, t: nat, orig: Seq<u32>)
    requires
        slots_exist(pool, orig),
    ensures
        slots_exist(capped(pool, t), orig),
{
    lemma_smallest(pool, t);
    let r = capped(pool, t);
    assert forall|i: int| 0 <= i < r.len() implies (#[trigger] r[i]).1 < orig.len() by {
        if t > 0 {
            assert(pool.contains(r[i]));
        }
    }
}

proof fn lemma_ins_pool_exist<R: Router, C: Compressor>(ix: &Index<R, C>, ctx: QueryCtx, q: Seq<i8>, cells: Seq<u32>)
    requires
        ix.ins_lists_ok(),
        ix.cells_exist(cells),
    ensures
        slots_exist(ix.ins_pool(ctx, q, cells), ix.ins_orig@),
    decreases cells.len(),
{
    if cells.len() > 0 {
        let rest = cells.drop_last();
        let c = cells.last() as int;
        assert(cells[cells.len() - 1] < ix.nc());
        assert forall|i: int| 0 <= i < rest.len() implies #[trigger] rest[i] < ix.nc() by {
            assert(rest[i] == cells[i]);
        }
        lemma_ins_pool_exist(ix, ctx, q, rest);
        let gidx = ix.ins_gidx@[c]@;
        assert forall|e: int| 0 <= e < gidx.len() implies #[trigger] gidx[e] < ix.ins_orig@.len() by {
            assert(ix.ins_gidx@[c]@[e] < ix.ins_orig@.len());
        }
        lemma_ins_lanes(ix.ins_scores(ctx, q, c), gidx, ix.ins_orig@, gidx.len());
        let a = ix.ins_pool(ctx, q, rest);
        let b = ins_lanes(ix.ins_scores(ctx, q, c), gidx, ix.ins_orig@, gidx.len());
        let r = ix.ins_pool(ctx, q, cells);
        assert forall|i: int| 0 <= i < r.len() implies (#[trigger] r[i]).1 < ix.ins_orig@.len() by {
            if i < a.len() {
                assert(r[i] == a[i]);
            } else {
                assert(r[i] == b[i - a.len()]);
            }
        }
    }
}

/// A point that neither store holds is in no result.
pub proof fn law_absent_point_is_never_found<R: Router, C: Compressor>(ix: &Index<R, C>, id: u32, q: Seq<i8>, data: Seq<i8>, cells: Seq<u32>, t: nat, k: nat, knobs: ScanKnobs)
    requires
        ix.main_ok(),
        ix.ins_lists_ok(),
        ix.cells_exist(cells),
        !ix.slot_orig@.contains(id),
        !ix.ins_orig@.contains(id),
    ensures
        !ix.stream_found(q, data, cells, t, k, knobs).contains(id),
        !ix.found(q, data, cells, t, k, knobs).contains(id),
{
    let ctx = ix.comp.prepared(q);
    let dn = ix.d as nat;
    let plain = ScanKnobs { fused: false, sort_cells: false, ..knobs };
    let pool = ix.survivors_of(ctx, q, data, cells, t, plain);
    ix.lemma_survivors_live(ctx, q, data, cells, t, plain);
    lemma_rescored_ids(pool, ix.slot_orig@, ix.raw@, dn, q, ix.raw_orig_indexed, knobs.ip, pool.len(), id);
    let scored = rescored(pool, ix.slot_orig@, ix.raw@, dn, q, ix.raw_orig_indexed, knobs.ip, pool.len());
    lemma_nearest_ids(scored, (if 4 * k < pool.len() { 4 * k } else { pool.len() }) as nat, id);
    let built = ix.built_best(q, data, cells, t, k, knobs);
    lemma_ins_pool_exist(ix, ctx, q, cells);
    let ipool = capped(ix.ins_pool(ctx, q, cells), t);
    lemma_capped_exist(ix.ins_pool(ctx, q, cells), t, ix.ins_orig@);
    lemma_rescored_ids(ipool, ix.ins_orig@, ix.ins_raw@, dn, q, false, knobs.ip, ipool.len(), id);
    let iscored = rescored(ipool, ix.ins_orig@, ix.ins_raw@, dn, q, false, knobs.ip, ipool.len());
    lemma_nearest_ids(iscored, (if 4 * k < ipool.len() { 4 * k } else { ipool.len() }) as nat, id);
    let appended = ix.appended_best(q, cells, t, k, knobs.ip);
    let all = if ix.ins_raw@.len() > 0 {
        built + appended
    } else {
        built
    };
    let r = distinct_ids(ascending(all), k, all.len());
    lemma_ascending(all);
    law_distinct_ids(ascending(all), k, all.len());
    if r.contains(id) {
        broadcast use vstd::seq_lib::group_to_multiset_ensures;

        let i = choose|i: int| 0 <= i < r.len() && r[i] == id;
        let s = ascending(all);
        let j = choose|j: int| 0 <= j < s.len() && (#[trigger] s[j]).1 == r[i];
        assert(s.contains(s[j]));
        assert(s.to_multiset().count(s[j]) > 0);
        assert(all.contains(s[j]));
        let x = choose|x: int| 0 <= x < all.len() && all[x] == s[j];
        if x < built.len() {
            assert(all[x] == built[x]);
        } else {
            assert(all[x] == appended[x - built.len()]);
        }
    }
    let pool2 = ix.survivors_of(ctx, q, data, cells, t, knobs);
    ix.lemma_survivors_live(ctx, q, data, cells, t, knobs);
    lemma_rescored_ids(pool2, ix.slot_orig@, ix.raw@, dn, q, ix.raw_orig_indexed, knobs.ip, pool2.len(), id);
    let scored2 = rescored(pool2, ix.slot_orig@, ix.raw@, dn, q, ix.raw_orig_indexed, knobs.ip, pool2.len());
    let m2 = (if 4 * k < pool2.len() { 4 * k } else { pool2.len() }) as nat;
    lemma_nearest_ids(scored2, m2, id);
    let f = ix.found(q, data, cells, t, k, knobs);
    if f.contains(id) {
        let i = choose|i: int| 0 <= i < f.len() && f[i] == id;
        assert(nearest(scored2, m2)[i].1 == id);
    }
}

/// A list in which `orig` was emptied does not name it.
pub proof fn lemma_emptied(list: Seq<u32>, orig: u32)
    ensures
        orig != NO_POINT ==> !emptied(list, orig).contains(orig),
        !list.contains(orig) || orig == NO_POINT ==> emptied(list, orig) == list,
{
    let r = emptied(list, orig);
    if orig != NO_POINT && r.contains(orig) {
        let s = choose|s: int| 0 <= s < r.len() && r[s] == orig;
        assert(list[s] != orig);
    }
    if !list.contains(orig) || orig == NO_POINT {
        assert forall|s: int| 0 <= s < list.len() implies #[trigger] r[s] == list[s] by {
            if list[s] == orig {
                assert(list.contains(orig));
            }
        }
        assert(r =~= list);
    }
}

/// A deleted id is unknown and in no result, however often it was stored.
pub proof fn law_deleted_point_is_never_found<R: Router, C: Compressor>(pre: &Index<R, C>, post: &Index<R, C>, id: u32, q: Seq<i8>, data: Seq<i8>, cells: Seq<u32>, t: nat, k: nat, knobs: ScanKnobs)
    requires
        post.wf(),
        post.deleted(pre, id),
        id != NO_POINT,
        post.cells_exist(cells),
    ensures
        !post.knows(id),
        !post.stream_found(q, data, cells, t, k, knobs).contains(id),
        !post.found(q, data, cells, t, k, knobs).contains(id),
{
    lemma_emptied(pre.slot_orig@, id);
    lemma_emptied(pre.ins_orig@, id);
    law_absent_point_is_never_found(post, id, q, data, cells, t, k, knobs);
}

/// Deleting an unknown id changes neither store.
pub proof fn law_unknown_deletion_changes_nothing<R: Router, C: Compressor>(pre: &Index<R, C>, post: &Index<R, C>, id: u32)
    requires
        pre.wf(),
        post.deleted(pre, id),
        !pre.knows(id),
    ensures
        post.slot_orig@ == pre.slot_orig@,
        post.ins_orig@ == pre.ins_orig@,
        post.ins_loc@ == pre.ins_loc@,
        post.ins_count == pre.ins_count,
{
    lemma_emptied(pre.slot_orig@, id);
    lemma_emptied(pre.ins_orig@, id);
    assert(!pre.ins_loc@.contains_key(id)) by {
        if pre.ins_loc@.contains_key(id) {
            assert(pre.ins_orig@[pre.ins_loc@[id] as int] == id);
            assert(pre.ins_orig@.contains(id));
        }
    }
    assert(post.ins_loc@ =~= pre.ins_loc@);
}

pub proof fn lemma_gathered_has(f: spec_fn(u32) -> Seq<(i32, u32)>, cells: Seq<u32>, c: u32, e: (i32, u32))
    requires
        cells.contains(c),
        f(c).contains(e),
    ensures
        gathered(f, cells).contains(e),
    decreases cells.len(),
{
    let rest = cells.drop_last();
    let all = gathered(f, cells);
    if cells.last() == c {
        let part = f(c);
        let k = choose|k: int| 0 <= k < part.len() && part[k] == e;
        assert(all[gathered(f, rest).len() + k] == e);
    } else {
        let i = choose|i: int| 0 <= i < cells.len() && cells[i] == c;
        assert(rest[i] == c);
        lemma_gathered_has(f, rest, c, e);
        let k = choose|k: int| 0 <= k < gathered(f, rest).len() && gathered(f, rest)[k] == e;
        assert(all[k] == e);
    }
}

/// A point that was inserted and encoded is a candidate of every query that probes one of its cells,
/// until it is deleted.
pub proof fn law_inserted_point_is_a_candidate<R: Router, C: Compressor>(pre: &Index<R, C>, mid: &Index<R, C>, post: &Index<R, C>, row: Seq<i8>, id: u32, home: Seq<u32>, ctx: QueryCtx, q: Seq<i8>, cells: Seq<u32>, c: u32)
    requires
        pre.wf(),
        mid.wf(),
        post.wf(),
        id != NO_POINT,
        pre.ins_orig@.len() < u32::MAX,
        mid.inserted(pre, row, id, home),
        post.finalized(mid),
        home.contains(c),
        c < post.nc(),
        cells.contains(c),
    ensures
        post.ins_orig@[pre.ins_orig@.len() as int] == id,
        post.ins_pool(ctx, q, cells).contains((post.ins_scores(ctx, q, c as int)[pre.ins_gidx@[c as int]@.len() as int], pre.ins_orig@.len() as u32)),
{
    let g = pre.ins_orig@.len() as u32;
    let gidx = post.ins_gidx@[c as int]@;
    assert(mid.ins_gidx@[c as int]@ == pre.ins_gidx@[c as int]@.push(g));
    let at = pre.ins_gidx@[c as int]@.len() as int;
    assert(gidx[at] == g);
    let scores = post.ins_scores(ctx, q, c as int);
    assert forall|e: int| 0 <= e < gidx.len() implies #[trigger] gidx[e] < post.ins_orig@.len() by {
        assert(post.ins_gidx@[c as int]@[e] < post.ins_orig@.len());
    }
    lemma_ins_lanes(scores, gidx, post.ins_orig@, gidx.len());
    let f = post.ins_cell_pool(ctx, q);
    assert(f(c).contains((scores[at], gidx[at])));
    lemma_gathered_has(f, cells, c, (scores[at], g));
}

} // verus!
