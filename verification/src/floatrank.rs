//! Searches whose last stage orders points by single-precision rows. The stages before it are
//! here: they say which points' rows are read. So is the choice among them by the scores that the
//! caller computed.

use crate::compress::{Compressor, QueryCtx};
use crate::graph::{edges_used, graph_survivors, hops_used, rerank_cascade_graph, GraphAdj, GraphPolicy, UnionRows};
use crate::ibin::I8Bin;
use crate::index::{Index, ScanKnobs};
use crate::order::{ascending, lemma_smallest, smallest};
use crate::refine::{cascade_prune, cascaded, int8_scored, keyed, top_distinct_by_key};
use crate::rerank::{deduped, distinct_ids, slots_exist};
use crate::router::{ids_of, take_all_ids, Router};
use crate::search::{law_cell_order_changes_nothing, lemma_deduped_live, lemma_smallest_live, live_slots, query_of, slots_in, total_probes};
use crate::simd::lemma_row_in_range;
use vstd::prelude::*;
use vstd::slice::slice_subrange;

verus! {

/// How the survivors of a scan are narrowed before single-precision rows are read.
#[derive(Clone, Copy)]
pub struct NarrowKnobs {
    /// Rescore them by int8 inner product.
    pub cascade: bool,
    /// Over this many leading coordinates; 0 for all.
    pub cdim: usize,
    /// And keep this many; 0 for all.
    pub kk: usize,
}

/// A neighbour graph over the base, and how far it is followed.
#[derive(Clone, Copy)]
pub struct GraphStep<'a> {
    pub adj: &'a GraphAdj,
    pub policy: GraphPolicy,
}

/// The points of a pool of slots.
pub open spec fn points_at(pool: Seq<(i32, u32)>, slot_orig: Seq<u32>) -> Seq<u32> {
    Seq::new(pool.len(), |i: int| slot_orig[pool[i].1 as int])
}

fn take_points(pool: &Vec<(i32, u32)>, slot_orig: &[u32]) -> (r: Vec<u32>)
    requires
        slots_exist(pool@, slot_orig@),
    ensures
        r@ == points_at(pool@, slot_orig@),
{
    let n: usize = pool.len();
    let slots: usize = slot_orig.len();
    let mut out: Vec<u32> = Vec::with_capacity(n);
    let mut i: usize = 0;
    while i < n
        invariant
            i <= n,
            n == pool@.len(),
            slots == slot_orig@.len(),
            slots_exist(pool@, slot_orig@),
            out@.len() == i,
            forall|j: int| 0 <= j < i ==> #[trigger] out@[j] == slot_orig@[pool@[j].1 as int],
        decreases n - i,
    {
        let slot: u32 = pool[i].1;
        assert(pool@[i as int].1 < slot_orig@.len());
        out.push(slot_orig[slot as usize]);
        i = i + 1;
    }
    assert(out@ =~= points_at(pool@, slot_orig@));
    out
}

proof fn lemma_rescored_exist(pool: Seq<(i32, u32)>, slot_orig: Seq<u32>, raw: Seq<i8>, d: nat, dd: nat, q: Seq<i8>, by_orig: bool, n: nat)
    requires
        n <= pool.len(),
        slots_exist(pool, slot_orig),
    ensures
        slots_exist(int8_scored(pool, slot_orig, raw, d, dd, q, by_orig, n), slot_orig),
    decreases n,
{
    if n > 0 {
        lemma_rescored_exist(pool, slot_orig, raw, d, dd, q, by_orig, (n - 1) as nat);
        assert(pool[n - 1].1 < slot_orig.len());
    }
}

proof fn lemma_cascaded_exist(pool: Seq<(i32, u32)>, slot_orig: Seq<u32>, raw: Seq<i8>, d: nat, cdim: nat, q: Seq<i8>, by_orig: bool, kk: nat)
    requires
        live_slots(pool, slot_orig),
    ensures
        slots_exist(cascaded(pool, slot_orig, raw, d, cdim, q, by_orig, kk), slot_orig),
{
    let dd = if cdim == 0 || cdim > d {
        d
    } else {
        cdim
    };
    lemma_deduped_live(pool, slot_orig);
    let one = deduped(pool, slot_orig);
    assert forall|i: int| 0 <= i < one.len() implies (#[trigger] one[i]).1 < slot_orig.len() by {
    }
    lemma_rescored_exist(one, slot_orig, raw, d, dd, q, by_orig, one.len());
    let scored = int8_scored(one, slot_orig, raw, d, dd, q, by_orig, one.len());
    lemma_smallest(scored, kk);
    let kept = smallest(scored, kk);
    assert forall|i: int| 0 <= i < kept.len() implies (#[trigger] kept[i]).1 < slot_orig.len() by {
        assert(scored.contains(kept[i]));
    }
}

impl<R: Router, C: Compressor> Index<R, C> {
    /// The rows that the graph stage reads: those of the base and the stored ones.
    pub open spec fn reads_from(&self, ds: &I8Bin<'_>, src: UnionRows) -> bool {
        &&& src.rows@ == ds.data@
        &&& src.raw@ == self.raw@
        &&& src.raw_by_orig == self.raw_orig_indexed
        &&& src.d == self.d
    }

    /// The points whose single-precision rows are read for a pool of survivors.
    pub open spec fn narrowed(&self, src: UnionRows, q: Seq<i8>, pool: Seq<(i32, u32)>, graph: Option<GraphStep>, how: NarrowKnobs) -> Seq<u32> {
        if !how.cascade {
            points_at(pool, self.slot_orig@)
        } else {
            match graph {
                Some(g) => ids_of(graph_survivors(src, q, pool, self.slot_orig@, *g.adj, g.policy, how.kk as nat)),
                None => points_at(cascaded(pool, self.slot_orig@, self.raw@, self.d as nat, how.cdim as nat, q, self.raw_orig_indexed, how.kk as nat), self.slot_orig@),
            }
        }
    }

    /// What narrowing a pool of up to `most` survivors needs.
    pub open spec fn narrows(&self, ds: &I8Bin<'_>, most: nat, graph: Option<GraphStep>, how: NarrowKnobs) -> bool {
        how.cascade ==> match graph {
            Some(g) => {
                &&& self.rows_in(ds)
                &&& g.adj.wf(ds.nb as nat)
                &&& self.raw_orig_indexed ==> ds.nb * self.d <= self.raw@.len()
                &&& most + hops_used(g.policy.hops as nat) * (g.policy.m * edges_used(g.policy.kedge as nat, g.adj.k as nat)) <= usize::MAX / 2
            },
            None => most <= usize::MAX / 2,
        }
    }

    /// Narrow a pool of survivors to the points whose single-precision rows are read.
    pub fn narrow(&self, ds: &I8Bin<'_>, q: &[i8], pool: Vec<(i32, u32)>, graph: Option<GraphStep<'_>>, how: NarrowKnobs) -> (r: Vec<u32>)
        requires
            self.main_ok(),
            q@.len() == self.d,
            live_slots(pool@, self.slot_orig@),
            self.narrows(ds, pool@.len(), graph, how),
        ensures
            forall|src: UnionRows| #[trigger] self.reads_from(ds, src) ==> r@ == self.narrowed(src, q@, pool@, graph, how),
    {
        assert(slots_exist(pool@, self.slot_orig@)) by {
            assert forall|i: int| 0 <= i < pool@.len() implies (#[trigger] pool@[i]).1 < self.slot_orig@.len() by {
            }
        }
        if !how.cascade {
            return take_points(&pool, self.slot_orig.as_slice());
        }
        match graph {
            Some(g) => {
                let own = UnionRows { rows: ds.data, raw: self.raw.as_slice(), raw_by_orig: self.raw_orig_indexed, d: self.d };
                proof {
                    assert forall|src: UnionRows| #[trigger] self.reads_from(ds, src) implies src == own by {
                        assert(src.rows =~= own.rows);
                        assert(src.raw =~= own.raw);
                    }
                }
                let found = rerank_cascade_graph(&own, ds.nb, self.slot_orig.as_slice(), q, &pool, g.adj, g.policy, how.kk);
                take_all_ids(&found)
            },
            None => {
                proof {
                    self.lemma_rows_stored(pool@);
                    lemma_cascaded_exist(pool@, self.slot_orig@, self.raw@, self.d as nat, how.cdim as nat, q@, self.raw_orig_indexed, how.kk as nat);
                }
                let kept = cascade_prune(self.raw.as_slice(), self.d, self.raw_orig_indexed, self.slot_orig.as_slice(), q, pool, how.cdim, how.kk);
                take_points(&kept, self.slot_orig.as_slice())
            },
        }
    }
}

impl<R: Router, C: Compressor> Index<R, C> {
    /// The graph is followed only from candidates that were collected while scanning.
    pub open spec fn graph_used<'a>(&self, graph: Option<GraphStep<'a>>, knobs: ScanKnobs) -> Option<GraphStep<'a>> {
        if self.fuses(knobs) {
            graph
        } else {
            None
        }
    }

    /// The most survivors that a scan of `cells` can have.
    pub open spec fn most_survivors(&self, cells: Seq<u32>, t: nat) -> nat {
        let slots = slots_in(self.cell_bstart@, cells);
        if t == 0 || slots < t {
            slots
        } else {
            t
        }
    }

    /// The points whose single-precision rows are read after a scan of `cells`.
    pub open spec fn float_points(&self, src: UnionRows, q: Seq<i8>, data: Seq<i8>, cells: Seq<u32>, t: nat, knobs: ScanKnobs, graph: Option<GraphStep>, how: NarrowKnobs) -> Seq<u32> {
        self.narrowed(src, q, self.survivors_of(self.comp.prepared(q), q, data, cells, t, knobs), self.graph_used(graph, knobs), how)
    }

    /// Scan `cells` and narrow the survivors to the points whose single-precision rows are read.
    pub fn scan_rerank_frr(&self, ds: &I8Bin<'_>, q: &[i8], cells: &[u32], t: usize, knobs: ScanKnobs, graph: Option<GraphStep<'_>>, how: NarrowKnobs) -> (r: Vec<u32>)
        requires
            self.main_ok(),
            self.cells_exist(cells@),
            self.takes(ds, q@),
            self.scan_fits(cells@, t as nat, knobs),
            self.narrows(ds, self.most_survivors(cells@, t as nat), self.graph_used(graph, knobs), how),
        ensures
            forall|src: UnionRows| #[trigger] self.reads_from(ds, src) ==> r@ == self.float_points(src, q@, ds.data@, cells@, t as nat, knobs, graph, how),
    {
        let ctx = self.comp.prepare_query(q);
        let pool = self.survivors(ds, q, cells, &ctx, t, knobs);
        proof {
            self.lemma_survivors_live(ctx, q@, ds.data@, cells@, t as nat, knobs);
        }
        let need_dedup = self.a0 >= knobs.dedup_a0 || knobs.pool_dedup;
        let residq_active = knobs.residq && self.rq_cent.len() > 0;
        let used: Option<GraphStep<'_>> = if knobs.fused && !need_dedup && !residq_active {
            graph
        } else {
            None
        };
        self.narrow(ds, q, pool, used, how)
    }

    /// Probe `p` cells and narrow the survivors of their scan to the points whose single-precision
    /// rows are read. `qn` is the normalised query.
    pub fn search_frr(&self, ds: &I8Bin<'_>, q: &[i8], qn: &[i8], p: usize, t: usize, knobs: ScanKnobs, graph: Option<GraphStep<'_>>, how: NarrowKnobs) -> (r: Vec<u32>)
        requires
            self.main_ok(),
            self.router.takes(q@, qn@),
            p >= 1,
            self.takes(ds, q@),
            self.scan_fits(self.router.probed(q@, qn@, p as nat), t as nat, knobs),
            self.narrows(ds, self.most_survivors(self.router.probed(q@, qn@, p as nat), t as nat), self.graph_used(graph, knobs), how),
        ensures
            forall|src: UnionRows| #[trigger] self.reads_from(ds, src) ==> r@ == self.float_points(src, q@, ds.data@, self.router.probed(q@, qn@, p as nat), t as nat, knobs, graph, how),
    {
        let cells = self.router.probe(q, qn, p);
        self.scan_rerank_frr(ds, q, cells.as_slice(), t, knobs, graph, how)
    }

    /// The points whose single-precision rows are read after a cell-major scan that collects its
    /// candidates.
    pub open spec fn batch_points(&self, src: UnionRows, q: Seq<i8>, data: Seq<i8>, cells: Seq<u32>, t: nat, graph: Option<GraphStep>, how: NarrowKnobs) -> Seq<u32> {
        self.narrowed(src, q, smallest(self.plain_pool(self.comp.prepared(q), q, data, cells), t), graph, how)
    }

    /// A batch of `nq` queries that probe up to `p` cells each.
    pub open spec fn takes_queries(&self, ds: &I8Bin<'_>, queries: Seq<i8>, normed: Seq<i8>, nq: nat, p: nat) -> bool {
        &&& queries.len() == nq * self.d
        &&& normed.len() == nq * self.d
        &&& nq * p <= u32::MAX
        &&& nq <= u32::MAX
        &&& self.comp.raw_rows() ==> self.rows_in(ds)
        &&& forall|i: int|
            0 <= i < nq ==> {
                let q = #[trigger] query_of(queries, self.d as nat, i);
                let qn = query_of(normed, self.d as nat, i);
                &&& self.router.takes(q, qn)
                &&& self.router.probed(q, qn, p).len() <= p
            }
    }

    /// Scan for a batch of queries cell by cell, and narrow the survivors of each query to the points
    /// whose single-precision rows are read.
    pub fn search_batch_frr(&self, ds: &I8Bin<'_>, queries: &[i8], normed: &[i8], nq: usize, p: usize, t: usize, graph: Option<GraphStep<'_>>, how: NarrowKnobs, use512: bool) -> (r: Vec<Vec<u32>>)
        requires
            self.main_ok(),
            p >= 1,
            1 <= t <= usize::MAX / 2 - 64,
            self.nc() < u32::MAX,
            self.takes_queries(ds, queries@, normed@, nq as nat, p as nat),
            self.narrows(ds, t as nat, graph, how),
        ensures
            r@.len() == nq,
            forall|src: UnionRows, i: int|
                0 <= i < nq && #[trigger] self.reads_from(ds, src) ==> (#[trigger] r@[i])@ == self.batch_points(
                    src,
                    query_of(queries@, self.d as nat, i),
                    ds.data@,
                    self.router.probed(query_of(queries@, self.d as nat, i), query_of(normed@, self.d as nat, i), p as nat),
                    t as nat,
                    graph,
                    how,
                ),
    {
        let d: usize = self.d;
        let qlen: usize = queries.len();
        let nlen: usize = normed.len();
        let mut cells: Vec<Vec<u32>> = Vec::with_capacity(nq);
        let mut ctxs: Vec<QueryCtx> = Vec::with_capacity(nq);
        let mut i: usize = 0;
        while i < nq
            invariant
                i <= nq,
                p >= 1,
                d == self.d,
                qlen == queries@.len(),
                nlen == normed@.len(),
                self.main_ok(),
                self.takes_queries(ds, queries@, normed@, nq as nat, p as nat),
                cells@.len() == i,
                ctxs@.len() == i,
                total_probes(cells@, i as nat) <= i * p,
                forall|j: int|
                    0 <= j < i ==> (#[trigger] cells@[j])@ == self.router.probed(query_of(queries@, self.d as nat, j), query_of(normed@, self.d as nat, j), p as nat),
                forall|j: int, k: int| 0 <= j < i && 0 <= k < cells@[j]@.len() ==> #[trigger] cells@[j]@[k] < self.nc(),
                forall|j: int| 0 <= j < i ==> #[trigger] ctxs@[j] == self.comp.prepared(query_of(queries@, self.d as nat, j)) && self.ctx_fits(ctxs@[j]),
            decreases nq - i,
        {
            proof {
                lemma_row_in_range(i as int, d as int, nq as int, qlen as int);
                assert(self.router.takes(query_of(queries@, self.d as nat, i as int), query_of(normed@, self.d as nat, i as int)));
            }
            let q: &[i8] = slice_subrange(queries, i * d, i * d + d);
            let qn: &[i8] = slice_subrange(normed, i * d, i * d + d);
            let probed = self.router.probe(q, qn, p);
            let ghost before = cells@;
            cells.push(probed);
            ctxs.push(self.comp.prepare_query(q));
            proof {
                lemma_total_prefix(before, cells@, i as nat);
                assert(total_probes(cells@, (i + 1) as nat) == total_probes(cells@, i as nat) + cells@[i as int]@.len());
                assert((i + 1) * p == i * p + p) by (nonlinear_arith);
            }
            i = i + 1;
        }
        let mut pools = self.batch_pools(ds, queries, &cells, &ctxs, t, use512);
        let ghost all = pools@;
        let mut out: Vec<Vec<u32>> = Vec::with_capacity(nq);
        let mut i: usize = 0;
        while i < nq
            invariant
                i <= nq,
                d == self.d,
                qlen == queries@.len(),
                self.main_ok(),
                self.takes_queries(ds, queries@, normed@, nq as nat, p as nat),
                self.narrows(ds, t as nat, graph, how),
                t >= 1,
                all.len() == nq,
                pools@.len() == nq,
                forall|j: int| i <= j < nq ==> #[trigger] pools@[j] == all[j],
                cells@.len() == nq,
                forall|j: int|
                    0 <= j < nq ==> (#[trigger] cells@[j])@ == self.router.probed(query_of(queries@, self.d as nat, j), query_of(normed@, self.d as nat, j), p as nat),
                forall|j: int, k: int| 0 <= j < nq && 0 <= k < cells@[j]@.len() ==> #[trigger] cells@[j]@[k] < self.nc(),
                forall|j: int|
                    0 <= j < nq ==> (#[trigger] all[j])@ == smallest(self.plain_pool(self.comp.prepared(query_of(queries@, self.d as nat, j)), query_of(queries@, self.d as nat, j), ds.data@, cells@[j]@), t as nat),
                out@.len() == i,
                forall|src: UnionRows, j: int|
                    0 <= j < i && #[trigger] self.reads_from(ds, src) ==> (#[trigger] out@[j])@ == self.batch_points(
                        src,
                        query_of(queries@, self.d as nat, j),
                        ds.data@,
                        self.router.probed(query_of(queries@, self.d as nat, j), query_of(normed@, self.d as nat, j), p as nat),
                        t as nat,
                        graph,
                        how,
                    ),
            decreases nq - i,
        {
            proof {
                lemma_row_in_range(i as int, d as int, nq as int, qlen as int);
                let q = query_of(queries@, self.d as nat, i as int);
                let plain = self.plain_pool(self.comp.prepared(q), q, ds.data@, cells@[i as int]@);
                assert(self.cells_exist(cells@[i as int]@));
                self.lemma_pool_live(self.comp.prepared(q), q, ds.data@, cells@[i as int]@);
                lemma_smallest_live(plain, t as nat, self.slot_orig@);
                lemma_smallest(plain, t as nat);
            }
            let q: &[i8] = slice_subrange(queries, i * d, i * d + d);
            let mut pool: Vec<(i32, u32)> = Vec::new();
            core::mem::swap(&mut pool, &mut pools[i]);
            assert(pool == all[i as int]);
            out.push(self.narrow(ds, q, pool, graph, how));
            i = i + 1;
        }
        out
    }
}

proof fn lemma_total_prefix(a: Seq<Vec<u32>>, b: Seq<Vec<u32>>, n: nat)
    requires
        n <= a.len(),
        n <= b.len(),
        forall|j: int| 0 <= j < n ==> #[trigger] a[j] == b[j],
    ensures
        total_probes(a, n) == total_probes(b, n),
    decreases n,
{
    if n > 0 {
        lemma_total_prefix(a, b, (n - 1) as nat);
    }
}

/// Points with the keys of their scores.
pub open spec fn scored_points(ids: Seq<u32>, keys: Seq<u32>) -> Seq<(u32, u32)> {
    Seq::new(ids.len(), |i: int| (keys[i], ids[i]))
}

/// The `k` best distinct points by single-precision scores, which are given by their bits.
pub fn best_by_score(ids: &Vec<u32>, keys: &Vec<u32>, k: usize) -> (r: Vec<u32>)
    requires
        keys@.len() == ids@.len(),
    ensures
        r@ == distinct_ids(ascending(keyed(scored_points(ids@, keys@))), k as nat, ids@.len()),
{
    let n: usize = ids.len();
    let mut scored: Vec<(u32, u32)> = Vec::with_capacity(n);
    let mut i: usize = 0;
    while i < n
        invariant
            i <= n,
            n == ids@.len(),
            n == keys@.len(),
            scored@.len() == i,
            forall|j: int| 0 <= j < i ==> #[trigger] scored@[j] == (keys@[j], ids@[j]),
        decreases n - i,
    {
        scored.push((keys[i], ids[i]));
        i = i + 1;
    }
    assert(scored@ =~= scored_points(ids@, keys@));
    top_distinct_by_key(&scored, k)
}

/// Where candidates are collected while scanning, a query has the same single-precision rows read in
/// a batch that is scanned cell by cell as on its own.
pub proof fn law_batching_changes_no_candidate<R: Router, C: Compressor>(
    ix: &Index<R, C>,
    src: UnionRows,
    q: Seq<i8>,
    data: Seq<i8>,
    cells: Seq<u32>,
    t: nat,
    knobs: ScanKnobs,
    graph: Option<GraphStep>,
    how: NarrowKnobs,
)
    requires
        t >= 1,
        ix.fuses(knobs),
    ensures
        ix.batch_points(src, q, data, cells, t, graph, how) == ix.float_points(src, q, data, cells, t, knobs, graph, how),
{
    law_cell_order_changes_nothing(ix, ix.comp.prepared(q), q, data, cells, cells, t, knobs);
}

} // verus!
