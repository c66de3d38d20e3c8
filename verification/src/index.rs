//! The index: a router over cells of compressed blocks, with the raw rows for the exact rerank.
use std::collections::HashMap;
use vstd::prelude::*;
use crate::compress::{block_scores, ctx_ok, Compressor, QueryCtx};
use crate::fused::lane_pool;
use crate::ibin::I8Bin;
use crate::layout::{
    block_at, cell_slots, codes_by_slot, first_block, cell_sizes, il_holds, interleave_cells, lay_out, lemma_first_block_monotone,
    padded, members, rows_by_slot, slot_code, slot_row, starts_ok, Cells,
};
use crate::pq::ResidPq;
use crate::rerank::NO_POINT;
use crate::router::Router;
use crate::simd::{lemma_row_in_range, row_of, L2_DIM};

verus! {

/// An inverted-file index. Cell `c` owns the blocks `cell_bstart[c]..cell_bstart[c + 1]`; block `b`
/// owns the slots `16 b..16 b + 16`; `slot_orig` names the point of each slot.
pub struct Index<R: Router, C: Compressor> {
    pub router: R,
    pub comp: C,
    pub cell_bstart: Vec<u32>,
    pub slot_orig: Vec<u32>,
    pub blocks: Vec<u8>,
    pub bb: usize,
    pub xfn: Vec<i32>,
    pub raw: Vec<i8>,
    pub d: usize,
    /// Interleaved copy of each cell's full groups of 4 blocks; empty unless built for it.
    pub blocks_il: Vec<u8>,
    pub cell_ilstart: Vec<u32>,
    pub resid_pq: Option<ResidPq>,
    pub resid_codes: Vec<u8>,
    /// Centroid of each cell in the coordinates of the rows; empty unless blocks hold residuals.
    pub rq_cent: Vec<i8>,
    pub a0: usize,
    /// `raw` holds one row per point, not one per slot.
    pub raw_orig_indexed: bool,
    pub ins_blocks: Vec<Vec<u8>>,
    pub ins_gidx: Vec<Vec<u32>>,
    pub ins_full_blocks: Vec<usize>,
    pub ins_raw: Vec<i8>,
    pub ins_orig: Vec<u32>,
    pub ins_loc: HashMap<u32, u32>,
    pub ins_dirty: Vec<u32>,
    pub ins_count: usize,
    pub main_rev: Option<(Vec<u32>, Vec<u32>)>,
    pub n_main: usize,
}

/// Build and scan settings.
#[derive(Clone, Copy)]
pub struct ScanKnobs {
    /// Collect the best candidates while scanning.
    pub fused: bool,
    /// Visit the probed cells in storage order.
    pub sort_cells: bool,
    /// Smallest number of copies per point from which the pool is reduced to one entry per point.
    pub dedup_a0: usize,
    /// Reduce the pool to one entry per point in any case.
    pub pool_dedup: bool,
    /// Scan the interleaved copy where there is one.
    pub use512: bool,
    /// Blocks hold residuals.
    pub residq: bool,
    /// Rank by inner product, not by distance.
    pub ip: bool,
}

/// Rows of 16 slots as an exact scan reads them: empty for a slot without a point.
pub open spec fn rows16_of(slot_orig: Seq<u32>, data: Seq<i8>, d: nat, b: int) -> Seq<Seq<i8>> {
    Seq::new(16, |j: int| if slot_orig[16 * b + j] != NO_POINT { row_of(data, d, slot_orig[16 * b + j] as int) } else { Seq::empty() })
}

impl<R: Router, C: Compressor> Index<R, C> {
    /// Number of cells.
    pub open spec fn nc(&self) -> nat {
        self.router.cells()
    }

    /// The raw rows that the rerank reads are stored.
    pub open spec fn raw_ok(&self) -> bool {
        if self.raw_orig_indexed {
            forall|s: int| 0 <= s < self.slot_orig@.len() && #[trigger] self.slot_orig@[s] != NO_POINT ==> (self.slot_orig@[s] + 1) * self.d <= self.raw@.len()
        } else {
            self.raw@.len() == self.slot_orig@.len() * self.d
        }
    }

    /// The interleaved copy, where there is one, agrees with the blocks.
    pub open spec fn il_ok(&self) -> bool {
        self.blocks_il@.len() == 0 || (self.bb % 16 == 0 && il_holds(self.cell_ilstart@, self.blocks_il@, self.cell_bstart@, self.blocks@, self.bb as nat, self.nc()))
    }

    /// The built part of the index is sound.
    pub open spec fn main_ok(&self) -> bool {
        &&& self.router.ready()
        &&& self.comp.ready()
        &&& self.d == self.comp.dim()
        &&& self.d <= L2_DIM
        &&& self.bb == self.comp.block_len()
        &&& starts_ok(self.cell_bstart@, self.nc())
        &&& self.slot_orig@.len() == 16 * self.cell_bstart@[self.nc() as int]
        &&& self.slot_orig@.len() <= u32::MAX
        &&& self.blocks@.len() == self.cell_bstart@[self.nc() as int] * self.bb
        &&& self.rq_cent@.len() == 0 || self.rq_cent@.len() == self.nc() * self.d
        &&& self.raw_ok()
        &&& self.il_ok()
    }

    /// `ds` holds the rows of all stored points.
    pub open spec fn rows_in(&self, ds: &I8Bin<'_>) -> bool {
        &&& ds.wf()
        &&& ds.d == self.d
        &&& forall|s: int| 0 <= s < self.slot_orig@.len() ==> #[trigger] self.slot_orig@[s] < ds.nb || self.slot_orig@[s] == NO_POINT
    }

    /// The compressor can scan with the context.
    pub open spec fn ctx_fits(&self, ctx: QueryCtx) -> bool {
        ctx_ok(self.comp.raw_rows(), self.comp.dim(), self.comp.subspaces(), self.comp.block_len(), ctx)
    }

    /// Scores of the 16 slots of block `b`.
    pub open spec fn scores(&self, ctx: QueryCtx, q: Seq<i8>, data: Seq<i8>, b: int) -> Seq<i32> {
        let block = block_at(self.blocks@, self.bb as nat, b);
        block_scores(self.comp.dim(), self.comp.subspaces(), ctx, self.comp.own_scores(ctx, block), block, q, rows16_of(self.slot_orig@, data, self.d as nat, b))
    }

    /// Scores of all slots of cell `c`.
    pub open spec fn cell_scores(&self, ctx: QueryCtx, q: Seq<i8>, data: Seq<i8>, c: int) -> Seq<i32> {
        Seq::new((16 * (self.cell_bstart@[c + 1] - self.cell_bstart@[c])) as nat, |i: int| self.scores(ctx, q, data, self.cell_bstart@[c] + i / 16)[i % 16])
    }

    /// Candidates `(score, slot)` of cell `c`.
    pub open spec fn cell_lanes(&self, ctx: QueryCtx, q: Seq<i8>, data: Seq<i8>, c: int) -> Seq<(i32, u32)> {
        lane_pool(self.cell_scores(ctx, q, data, c), (16 * self.cell_bstart@[c]) as nat, self.slot_orig@, (16 * (self.cell_bstart@[c + 1] - self.cell_bstart@[c])) as nat)
    }

    /// Build the index over an assignment: `assign[i * a0..i * a0 + a0]` are the cells of point `i`.
    /// `rq_cent` are the cell centroids that the blocks are residuals of, or empty. `refine` is a second
    /// quantiser with one code per point.
    pub fn build(router: R, comp: C, ds: &I8Bin<'_>, assign: &Vec<u32>, a0: usize, rq_cent: Vec<i8>, refine: Option<(ResidPq, Vec<u8>)>, raw_dedup: bool, use512: bool) -> (r: Self)
        requires
            router.ready(),
            comp.ready(),
            ds.wf(),
            ds.d == comp.dim(),
            ds.d <= L2_DIM,
            a0 >= 1,
            router.cells() < usize::MAX,
            assign@.len() == ds.nb * a0,
            assign@.len() <= u32::MAX,
            forall|i: int| 0 <= i < assign@.len() ==> #[trigger] assign@[i] < router.cells(),
            rq_cent@.len() == 0 || rq_cent@.len() == router.cells() * ds.d,
            16 * first_block(cell_sizes(assign@, a0 as nat, router.cells()), router.cells()) <= u32::MAX,
            match refine {
                Some(p) => p.1@.len() == ds.nb * p.0.m,
                None => true,
            },
            use512 ==> comp.block_len() % 16 == 0,
        ensures
            r.main_ok(),
            r.rows_in(ds),
            r.router == router,
            r.comp == comp,
            (Cells { bstart: r.cell_bstart, slot_orig: r.slot_orig, blocks: r.blocks }).hold(&r.comp, ds.data@, ds.d as nat, assign@, a0 as nat, router.cells(), rq_cent@),
            r.rq_cent == rq_cent,
            r.a0 == a0,
            r.raw_orig_indexed == raw_dedup,
            raw_dedup ==> r.raw@ == ds.data@,
            !raw_dedup ==> forall|s: int| 0 <= s < r.slot_orig@.len() ==> #[trigger] row_of(r.raw@, ds.d as nat, s) == slot_row(r.slot_orig@, ds.data@, ds.d as nat, s),
            match refine {
                Some(p) => {
                    &&& r.resid_pq == Some(p.0)
                    &&& r.resid_codes@.len() == r.slot_orig@.len() * p.0.m
                    &&& forall|s: int, j: int| 0 <= s < r.slot_orig@.len() && 0 <= j < p.0.m ==> #[trigger] r.resid_codes@[s * p.0.m + j] == slot_code(r.slot_orig@, p.1@, p.0.m as nat, s, j)
                },
                None => r.resid_pq is None && r.resid_codes@.len() == 0,
            },
            use512 && comp.block_len() > 0 ==> il_holds(r.cell_ilstart@, r.blocks_il@, r.cell_bstart@, r.blocks@, r.bb as nat, router.cells()),
            !use512 || comp.block_len() == 0 ==> r.blocks_il@.len() == 0 && r.cell_ilstart@.len() == 0,
            r.empty_buffer(),
            r.main_rev is None,
            r.n_main == ds.nb,
            r.xfn@.len() == 0,
            router.cells() <= u32::MAX && ds.nb < u32::MAX - 1 ==> r.wf(),
    {
        let nc: usize = router.n_cells();
        let bb: usize = comp.block_bytes();
        let d: usize = ds.d;
        let cells = lay_out(&comp, ds, assign, a0, nc, &rq_cent);
        proof {
            lemma_cells_sound(&cells, &comp, ds, assign@, a0 as nat, nc as nat, rq_cent@);
        }
        let Cells { bstart, slot_orig, blocks } = cells;
        let raw: Vec<i8> = if raw_dedup { ds.make_resident() } else { rows_by_slot(&slot_orig, ds) };
        let (resid_pq, resid_codes): (Option<ResidPq>, Vec<u8>) = match refine {
            Some((pq, codes)) => {
                let by_slot = codes_by_slot(&slot_orig, &codes, pq.m, ds.nb);
                (Some(pq), by_slot)
            },
            None => (None, Vec::new()),
        };
        let (cell_ilstart, blocks_il): (Vec<u32>, Vec<u8>) = if use512 && bb > 0 {
            interleave_cells(&bstart, &blocks, bb, nc)
        } else {
            (Vec::new(), Vec::new())
        };
        proof {
            assert forall|s: int| 0 <= s < slot_orig@.len() && #[trigger] slot_orig@[s] != NO_POINT implies (slot_orig@[s] + 1) * d <= ds.data@.len() by {
                lemma_row_in_range(slot_orig@[s] as int, d as int, ds.nb as int, ds.data@.len() as int);
                let o = slot_orig@[s] as int;
                assert((o + 1) * d as int == o * d as int + d as int) by (nonlinear_arith);
            }
        }
        let mut ins_blocks: Vec<Vec<u8>> = Vec::new();
        let mut ins_gidx: Vec<Vec<u32>> = Vec::new();
        let mut i: usize = 0;
        while i < nc
            invariant
                i <= nc,
                ins_blocks@.len() == i,
                ins_gidx@.len() == i,
                forall|c: int| 0 <= c < i ==> (#[trigger] ins_blocks@[c])@.len() == 0,
                forall|c: int| 0 <= c < i ==> (#[trigger] ins_gidx@[c])@.len() == 0,
            decreases nc - i,
        {
            ins_blocks.push(Vec::new());
            ins_gidx.push(Vec::new());
            i = i + 1;
        }
        let r = Index {
            router,
            comp,
            cell_bstart: bstart,
            slot_orig,
            blocks,
            bb,
            xfn: Vec::new(),
            raw,
            d,
            blocks_il,
            cell_ilstart,
            resid_pq,
            resid_codes,
            rq_cent,
            a0,
            raw_orig_indexed: raw_dedup,
            ins_blocks,
            ins_gidx,
            ins_full_blocks: vec![0usize; nc],
            ins_raw: Vec::new(),
            ins_orig: Vec::new(),
            ins_loc: HashMap::new(),
            ins_dirty: Vec::new(),
            ins_count: 0,
            main_rev: None,
            n_main: ds.nb,
        };
        proof {
            if r.nc() <= u32::MAX && ds.nb < u32::MAX - 1 {
                r.lemma_fresh_is_wf();
            }
        }
        r
    }

    /// Nothing was inserted.
    pub open spec fn empty_buffer(&self) -> bool {
        &&& self.ins_blocks@.len() == self.nc()
        &&& self.ins_gidx@.len() == self.nc()
        &&& self.ins_full_blocks@.len() == self.nc()
        &&& forall|c: int| 0 <= c < self.nc() ==> (#[trigger] self.ins_blocks@[c])@.len() == 0
        &&& forall|c: int| 0 <= c < self.nc() ==> (#[trigger] self.ins_gidx@[c])@.len() == 0
        &&& forall|c: int| 0 <= c < self.nc() ==> #[trigger] self.ins_full_blocks@[c] == 0
        &&& self.ins_raw@.len() == 0
        &&& self.ins_orig@.len() == 0
        &&& self.ins_loc@ == Map::<u32, u32>::empty()
        &&& self.ins_dirty@.len() == 0
        &&& self.ins_count == 0
    }
}

/// Laid-out cells partition the blocks in order, and every slot is empty or names a point.
proof fn lemma_cells_sound<C: Compressor>(cells: &Cells, comp: &C, ds: &I8Bin<'_>, assign: Seq<u32>, a0: nat, nc: nat, cents: Seq<i8>)
    requires
        cells.hold(comp, ds.data@, ds.d as nat, assign, a0, nc, cents),
        a0 >= 1,
        assign.len() == ds.nb * a0,
        assign.len() <= u32::MAX,
    ensures
        starts_ok(cells.bstart@, nc),
        forall|s: int| 0 <= s < cells.slot_orig@.len() ==> #[trigger] cells.slot_orig@[s] < ds.nb || cells.slot_orig@[s] == NO_POINT,
{
    let sizes = cell_sizes(assign, a0, nc);
    assert forall|c: int, e: int| 0 <= c <= e <= nc implies #[trigger] cells.bstart@[c] <= #[trigger] cells.bstart@[e] by {
        lemma_first_block_monotone(sizes, c as nat, e as nat);
    }
    assert(cells.bstart@[0] == first_block(sizes, 0));
    assert(ds.nb <= u32::MAX) by (nonlinear_arith)
        requires
            ds.nb * a0 <= u32::MAX,
            a0 >= 1,
    ;
    assert forall|s: int| 0 <= s < cells.slot_orig@.len() implies #[trigger] cells.slot_orig@[s] < ds.nb || cells.slot_orig@[s] == NO_POINT by {
        let c = cell_owning(cells.bstart@, nc, s / 16);
        lemma_cell_owning(cells.bstart@, nc, s / 16);
        let slots = cell_slots(cells.bstart@, cells.slot_orig@, c);
        let pts = members(assign, a0, c, assign.len());
        assert(cells.bstart@[c + 1] <= cells.bstart@[nc as int]);
        assert(slots[s - 16 * cells.bstart@[c]] == cells.slot_orig@[s]);
        assert(slots == padded(pts));
        crate::layout::lemma_members_are_points(assign, a0, c, assign.len(), ds.nb as nat);
    }
}

/// The last cell that starts at or before block `b`.
pub open spec fn cell_owning(bstart: Seq<u32>, n: nat, b: int) -> int
    decreases n,
{
    if n == 0 {
        0
    } else if bstart[n - 1] <= b {
        n - 1
    } else {
        cell_owning(bstart, (n - 1) as nat, b)
    }
}

/// Every block belongs to the cell that owns it.
pub proof fn lemma_cell_owning(bstart: Seq<u32>, nc: nat, b: int)
    requires
        starts_ok(bstart, nc),
        0 <= b < bstart[nc as int],
    ensures
        0 <= cell_owning(bstart, nc, b) < nc,
        bstart[cell_owning(bstart, nc, b)] <= b < bstart[cell_owning(bstart, nc, b) + 1],
{
    lemma_cell_owning_upto(bstart, nc, nc, b);
}

proof fn lemma_cell_owning_upto(bstart: Seq<u32>, nc: nat, n: nat, b: int)
    requires
        starts_ok(bstart, nc),
        n <= nc,
        0 <= b < bstart[n as int],
    ensures
        0 <= cell_owning(bstart, n, b) < n,
        bstart[cell_owning(bstart, n, b)] <= b < bstart[cell_owning(bstart, n, b) + 1],
    decreases n,
{
    if n > 0 && bstart[n - 1] > b {
        lemma_cell_owning_upto(bstart, nc, (n - 1) as nat, b);
    }
}

} // verus!
