//! Drivers over many queries, and the two-stage scan whose survivors are ranked once more before
//! the exact rerank.

use crate::compress::{Compressor, QueryCtx};
use crate::fused::lane_pool;
use crate::ibin::I8Bin;
use crate::index::{Index, ScanKnobs};
use crate::order::{keep_smallest, lemma_smallest, smallest};
use crate::rerank::{lists, reranked, slots_exist, NO_POINT};
use crate::router::{FlatIvf, Router};
use crate::search::{capped, live_slots, query_of};
use crate::simd::lemma_row_in_range;
use vstd::prelude::*;
use vstd::slice::slice_subrange;

verus! {

/// A list of cells brought to length `p`: cut off, or filled up with cell 0.
pub open spec fn padded_cells(cells: Seq<u32>, p: nat) -> Seq<u32> {
    Seq::new(
        p,
        |i: int|
            if i < cells.len() {
                cells[i]
            } else {
                0
            },
    )
}

/// Bring a list of cells to length `p`.
pub fn fill_route(cells: &Vec<u32>, p: usize) -> (r: Vec<u32>)
    ensures
        r@ == padded_cells(cells@, p as nat),
{
    let n: usize = cells.len();
    let mut out: Vec<u32> = Vec::new();
    let mut k: usize = 0;
    while k < p
        invariant
            k <= p,
            n == cells@.len(),
            out@ == padded_cells(cells@, p as nat).take(k as int),
        decreases p - k,
    {
        if k < n {
            out.push(cells[k]);
        } else {
            out.push(0);
        }
        k = k + 1;
        assert(out@ =~= padded_cells(cells@, p as nat).take(k as int));
    }
    assert(padded_cells(cells@, p as nat).take(p as int) =~= padded_cells(cells@, p as nat));
    out
}

/// The cells that each of `nq` queries probes, `p` per query; cell 0 stands in where a query reaches
/// fewer.
pub fn probe_batch<R: Router>(router: &R, queries: &[i8], normed: &[i8], nq: usize, d: usize, p: usize) -> (r: Vec<u32>)
    requires
        router.ready(),
        p >= 1,
        queries@.len() == nq * d,
        normed@.len() == nq * d,
        nq * p <= usize::MAX,
        forall|i: int| 0 <= i < nq ==> router.takes(#[trigger] query_of(queries@, d as nat, i), query_of(normed@, d as nat, i)),
    ensures
        r@.len() == nq * p,
        forall|i: int| 0 <= i < nq ==> r@.subrange(i * p, i * p + p) == padded_cells(router.probed(#[trigger] query_of(queries@, d as nat, i), query_of(normed@, d as nat, i), p as nat), p as nat),
{
    let qlen: usize = queries.len();
    let nlen: usize = normed.len();
    let mut out: Vec<u32> = Vec::new();
    let mut i: usize = 0;
    while i < nq
        invariant
            i <= nq,
            p >= 1,
            qlen == nq * d,
            nlen == nq * d,
            qlen == queries@.len(),
            nlen == normed@.len(),
            router.ready(),
            nq * p <= usize::MAX,
            forall|j: int| 0 <= j < nq ==> router.takes(#[trigger] query_of(queries@, d as nat, j), query_of(normed@, d as nat, j)),
            out@.len() == i * p,
            forall|j: int| 0 <= j < i ==> out@.subrange(j * p, j * p + p) == padded_cells(router.probed(#[trigger] query_of(queries@, d as nat, j), query_of(normed@, d as nat, j), p as nat), p as nat),
        decreases nq - i,
    {
        proof {
            lemma_row_in_range(i as int, d as int, nq as int, qlen as int);
            lemma_row_in_range(i as int, p as int, nq as int, nq * p);
            assert(router.takes(query_of(queries@, d as nat, i as int), query_of(normed@, d as nat, i as int)));
        }
        let q: &[i8] = slice_subrange(queries, i * d, i * d + d);
        let qn: &[i8] = slice_subrange(normed, i * d, i * d + d);
        let cells = router.probe(q, qn, p);
        let ghost before = out@;
        let ghost want = padded_cells(cells@, p as nat);
        let mut full: Vec<u32> = fill_route(&cells, p);
        out.append(&mut full);
        proof {
            assert(i * p + p == (i + 1) * p) by (nonlinear_arith);
            assert forall|j: int| 0 <= j < i + 1 implies out@.subrange(j * p, j * p + p) == padded_cells(router.probed(#[trigger] query_of(queries@, d as nat, j), query_of(normed@, d as nat, j), p as nat), p as nat) by {
                if j < i {
                    assert(j * p + p <= i * p) by (nonlinear_arith)
                        requires
                            j < i,
                    ;
                    assert(0 <= j * p) by (nonlinear_arith)
                        requires
                            j >= 0,
                    ;
                    assert(out@.subrange(j * p, j * p + p) =~= before.subrange(j * p, j * p + p));
                } else {
                    assert(out@.subrange(j * p, j * p + p) =~= want);
                }
            }
        }
        i = i + 1;
    }
    out
}

impl<R: Router, C: Compressor> Index<R, C> {
    /// The cells that a query of a batch scans: the `p` cells that it probes, or all cells where there are
    /// fewer; where it reaches fewer than that, cell 0 stands in.
    pub open spec fn batch_route(&self, q: Seq<i8>, qn: Seq<i8>, p: nat) -> Seq<u32> {
        padded_cells(
            self.router.probed(q, qn, p),
            if p < self.router.cells() {
                p
            } else {
                self.router.cells()
            },
        )
    }

    /// A batch of queries that the index takes; `normed` are the normalised queries.
    pub open spec fn takes_batch(&self, ds: &I8Bin<'_>, queries: Seq<i8>, normed: Seq<i8>, nq: nat, p: nat, t: nat, knobs: ScanKnobs) -> bool {
        &&& queries.len() == nq * self.d
        &&& normed.len() == nq * self.d
        &&& forall|i: int|
            0 <= i < nq ==> {
                let q = #[trigger] query_of(queries, self.d as nat, i);
                let qn = query_of(normed, self.d as nat, i);
                &&& self.router.takes(q, qn)
                &&& self.takes(ds, q)
                &&& self.scan_fits(self.batch_route(q, qn, p), t, knobs)
            }
    }

    /// Search a batch of queries, each over the cells of its route.
    pub fn search_batch(&self, ds: &I8Bin<'_>, queries: &[i8], normed: &[i8], nq: usize, p: usize, t: usize, k: usize, knobs: ScanKnobs) -> (r: Vec<Vec<u32>>)
        requires
            self.main_ok(),
            p >= 1,
            k <= usize::MAX / 4,
            self.takes_batch(ds, queries@, normed@, nq as nat, p as nat, t as nat, knobs),
        ensures
            r@.len() == nq,
            forall|i: int|
                0 <= i < nq ==> (#[trigger] r@[i])@ == self.found(
                    query_of(queries@, self.d as nat, i),
                    ds.data@,
                    self.batch_route(query_of(queries@, self.d as nat, i), query_of(normed@, self.d as nat, i), p as nat),
                    t as nat,
                    k as nat,
                    knobs,
                ),
    {
        let d: usize = self.d;
        let qlen: usize = queries.len();
        let nlen: usize = normed.len();
        let nc: usize = self.router.n_cells();
        let most: usize = if p < nc { p } else { nc };
        let mut out: Vec<Vec<u32>> = Vec::with_capacity(nq);
        let mut i: usize = 0;
        while i < nq
            invariant
                i <= nq,
                p >= 1,
                k <= usize::MAX / 4,
                d == self.d,
                qlen == queries@.len(),
                nlen == normed@.len(),
                nc == self.router.cells(),
                most == if p < nc { p } else { nc },
                self.main_ok(),
                self.takes_batch(ds, queries@, normed@, nq as nat, p as nat, t as nat, knobs),
                out@.len() == i,
                forall|j: int|
                    0 <= j < i ==> (#[trigger] out@[j])@ == self.found(
                        query_of(queries@, self.d as nat, j),
                        ds.data@,
                        self.batch_route(query_of(queries@, self.d as nat, j), query_of(normed@, self.d as nat, j), p as nat),
                        t as nat,
                        k as nat,
                        knobs,
                    ),
            decreases nq - i,
        {
            proof {
                lemma_row_in_range(i as int, d as int, nq as int, qlen as int);
                assert(self.takes(ds, query_of(queries@, self.d as nat, i as int)));
            }
            let q: &[i8] = slice_subrange(queries, i * d, i * d + d);
            let qn: &[i8] = slice_subrange(normed, i * d, i * d + d);
            let cells = self.router.probe(q, qn, p);
            let route = fill_route(&cells, most);
            out.push(self.scan_rerank(ds, q, route.as_slice(), t, k, knobs));
            i = i + 1;
        }
        out
    }

    /// The `t` best candidates of the cells by their plain scores; `t == 0` keeps all.
    pub fn resid_pool(&self, ds: &I8Bin<'_>, q: &[i8], cells: &[u32], ctx: &QueryCtx, t: usize, use512: bool) -> (r: Vec<(i32, u32)>)
        requires
            self.main_ok(),
            self.ctx_fits(*ctx),
            self.cells_exist(cells@),
            self.takes(ds, q@),
        ensures
            r@ == capped(self.plain_pool(*ctx, q@, ds.data@, cells@), t as nat),
            live_slots(r@, self.slot_orig@),
            slots_exist(r@, self.slot_orig@),
    {
        let n: usize = cells.len();
        let total: usize = self.slot_orig.len();
        let mut pool: Vec<(i32, u32)> = Vec::new();
        let mut i: usize = 0;
        while i < n
            invariant
                i <= n,
                n == cells@.len(),
                total == self.slot_orig@.len(),
                self.main_ok(),
                self.ctx_fits(*ctx),
                self.cells_exist(cells@),
                self.takes(ds, q@),
                pool@ == self.plain_pool(*ctx, q@, ds.data@, cells@.take(i as int)),
            decreases n - i,
        {
            let cell: u32 = cells[i];
            let scores = self.score_cell(ds, q, cell, ctx, use512);
            proof {
                self.lemma_cell_range(cell as int);
            }
            let starts: usize = self.cell_bstart.len();
            let base: usize = 16 * self.cell_bstart[cell as usize] as usize;
            let m: usize = scores.len();
            let ghost before = pool@;
            let mut j: usize = 0;
            assert(pool@ =~= before + lane_pool(scores@, base as nat, self.slot_orig@, 0));
            while j < m
                invariant
                    j <= m,
                    m == scores@.len(),
                    base + m <= total,
                    total == self.slot_orig@.len(),
                    total <= u32::MAX,
                    pool@ == before + lane_pool(scores@, base as nat, self.slot_orig@, j as nat),
                decreases m - j,
            {
                if self.slot_orig[base + j] != NO_POINT {
                    pool.push((scores[j], (base + j) as u32));
                    assert(pool@ =~= before + lane_pool(scores@, base as nat, self.slot_orig@, (j + 1) as nat));
                }
                j = j + 1;
            }
            proof {
                assert(cells@.take(i + 1).drop_last() =~= cells@.take(i as int));
            }
            i = i + 1;
        }
        let ghost all = pool@;
        proof {
            assert(cells@.take(n as int) =~= cells@);
            self.lemma_pool_live(*ctx, q@, ds.data@, cells@);
            lemma_smallest(all, t as nat);
        }
        if t > 0 {
            keep_smallest(&mut pool, t);
            proof {
                assert forall|e: int| 0 <= e < pool@.len() implies (#[trigger] pool@[e]).1 < self.slot_orig@.len() && self.slot_orig@[pool@[e].1 as int] != NO_POINT by {
                    assert(all.contains(pool@[e]));
                }
            }
        }
        pool
    }

    /// Scan the cells, keep the `t_surv` best by plain score, and rerank the `rr_depth` best of them
    /// exactly. Where the survivors are to be ranked once more in between, take them from
    /// [`Index::resid_pool`] and hand them with their keys to [`Index::rerank_refined`].
    pub fn scan_rerank_resid(&self, ds: &I8Bin<'_>, q: &[i8], cells: &[u32], t_surv: usize, rr_depth: usize, k: usize, ip: bool, use512: bool) -> (r: Vec<u32>)
        requires
            self.main_ok(),
            self.cells_exist(cells@),
            self.takes(ds, q@),
            k <= usize::MAX / 4,
        ensures
            r@ == reranked(
                self.shallow(capped(self.plain_pool(self.comp.prepared(q@), q@, ds.data@, cells@), t_surv as nat), None, rr_depth as nat),
                self.slot_orig@,
                self.raw@,
                self.d as nat,
                q@,
                self.raw_orig_indexed,
                ip,
                k as nat,
            ),
    {
        let ctx = self.comp.prepare_query(q);
        let pool = self.resid_pool(ds, q, cells, &ctx, t_surv, use512);
        self.rerank_refined(q, &pool, None, rr_depth, k, ip)
    }
}

/// A query that reaches as many cells as it asks for, or all of them, is answered in a batch as on its
/// own.
pub proof fn law_full_route_is_answered_as_alone<R: Router, C: Compressor>(ix: &Index<R, C>, q: Seq<i8>, qn: Seq<i8>, data: Seq<i8>, p: nat, t: nat, k: nat, knobs: ScanKnobs)
    requires
        ix.router.probed(q, qn, p).len() == (if p < ix.router.cells() { p } else { ix.router.cells() }),
    ensures
        ix.batch_route(q, qn, p) == ix.router.probed(q, qn, p),
        ix.found(q, data, ix.batch_route(q, qn, p), t, k, knobs) == ix.found(q, data, ix.router.probed(q, qn, p), t, k, knobs),
{
    assert(ix.batch_route(q, qn, p) =~= ix.router.probed(q, qn, p));
}

/// Every route of a flat router is full, so its batches answer each query as on its own.
pub proof fn law_flat_batches_answer_as_alone<C: Compressor>(ix: &Index<FlatIvf, C>, q: Seq<i8>, qn: Seq<i8>, data: Seq<i8>, p: nat, t: nat, k: nat, knobs: ScanKnobs)
    ensures
        ix.found(q, data, ix.batch_route(q, qn, p), t, k, knobs) == ix.found(q, data, ix.router.probed(q, qn, p), t, k, knobs),
{
    lemma_smallest(ix.router.scores(qn), p);
    law_full_route_is_answered_as_alone(ix, q, qn, data, p, t, k, knobs);
}

/// A depth of no less than the pool, or of 0, hands every survivor to the exact rerank.
pub proof fn law_full_depth_reranks_every_survivor<R: Router, C: Compressor>(ix: &Index<R, C>, pool: Seq<(i32, u32)>, depth: nat)
    requires
        depth == 0 || depth >= pool.len(),
    ensures
        ix.shallow(pool, None, depth).len() == pool.len(),
        forall|i: int| 0 <= i < pool.len() ==> lists(ix.shallow(pool, None, depth), (#[trigger] pool[i]).1),
{
    if depth > 0 {
        crate::order::lemma_smallest_all(pool, depth);
        crate::order::lemma_ascending(pool);
        broadcast use vstd::seq_lib::group_to_multiset_ensures;

        let s = smallest(pool, depth);
        assert forall|i: int| 0 <= i < pool.len() implies lists(ix.shallow(pool, None, depth), (#[trigger] pool[i]).1) by {
            assert(pool.contains(pool[i]));
            assert(pool.to_multiset().contains(pool[i]));
            assert(s.to_multiset().contains(pool[i]));
            assert(s.contains(pool[i]));
            let j = choose|j: int| 0 <= j < s.len() && s[j] == pool[i];
            assert(ix.shallow(pool, None, depth)[j].1 == pool[i].1);
        }
    } else {
        assert forall|i: int| 0 <= i < pool.len() implies lists(ix.shallow(pool, None, depth), (#[trigger] pool[i]).1) by {
            assert(ix.shallow(pool, None, depth)[i].1 == pool[i].1);
        }
    }
}

} // verus!
