//! Candidate scan of an index: score the slots of the probed cells, keep the best, rerank exactly.
use vstd::prelude::*;
use vstd::slice::slice_subrange;
use crate::compress::{row_views, Compressor, QueryCtx};
use crate::fused::{lane_pool, FusedTopT};
use crate::ibin::I8Bin;
use crate::index::{rows16_of, Index};
use crate::layout::{block_at, first_group, group_holds, lemma_block_in_range, lemma_first_group_bound, lemma_first_group_monotone};
use crate::order::smallest;
use crate::pq::{adc_i8, block_adc_i8_i16acc, block_adc_i8_i16acc_avx512_il, law_interleaved_scores_agree};
use crate::rerank::NO_POINT;
use crate::router::Router;
use crate::simd::{dot, dot_i8_avx2, lemma_row_in_range, row_of};

verus! {

/// `x` brought into the range of a 32-bit integer by wrapping around.
pub open spec fn wrap32(x: int) -> i32 {
    if x > i32::MAX {
        (x - 0x1_0000_0000) as i32
    } else if x < i32::MIN {
        (x + 0x1_0000_0000) as i32
    } else {
        x as i32
    }
}

/// A candidate list with an offset taken off every score.
pub open spec fn shifted(pool: Seq<(i32, u32)>, off: int) -> Seq<(i32, u32)> {
    Seq::new(pool.len(), |i: int| (wrap32(pool[i].0 - off), pool[i].1))
}

/// What `f` gives for each cell of a list, one behind the other.
pub open spec fn gathered(f: spec_fn(u32) -> Seq<(i32, u32)>, cells: Seq<u32>) -> Seq<(i32, u32)>
    decreases cells.len(),
{
    if cells.len() == 0 {
        Seq::empty()
    } else {
        gathered(f, cells.drop_last()) + f(cells.last())
    }
}

proof fn lemma_gathered_remove(f: spec_fn(u32) -> Seq<(i32, u32)>, cells: Seq<u32>, i: int)
    requires
        0 <= i < cells.len(),
    ensures
        gathered(f, cells).to_multiset() == gathered(f, cells.remove(i)).to_multiset().add(f(cells[i]).to_multiset()),
    decreases cells.len(),
{
    let n = cells.len() - 1;
    vstd::seq_lib::lemma_multiset_commutative(gathered(f, cells.drop_last()), f(cells.last()));
    if i == n {
        assert(cells.remove(i) =~= cells.drop_last());
    } else {
        let rest = cells.drop_last();
        lemma_gathered_remove(f, rest, i);
        assert(cells.remove(i).drop_last() =~= rest.remove(i));
        assert(cells.remove(i).last() == cells.last());
        vstd::seq_lib::lemma_multiset_commutative(gathered(f, rest.remove(i)), f(cells.last()));
        assert(gathered(f, cells).to_multiset() =~= gathered(f, cells.remove(i)).to_multiset().add(f(cells[i]).to_multiset()));
    }
}

/// The gathered candidates do not depend on the order in which the cells are visited.
pub proof fn lemma_gathered_ignores_order(f: spec_fn(u32) -> Seq<(i32, u32)>, a: Seq<u32>, b: Seq<u32>)
    requires
        a.to_multiset() == b.to_multiset(),
    ensures
        gathered(f, a).to_multiset() == gathered(f, b).to_multiset(),
    decreases a.len(),
{
    broadcast use vstd::seq_lib::group_to_multiset_ensures;

    assert(a.to_multiset().len() == a.len());
    assert(b.to_multiset().len() == b.len());
    if a.len() > 0 {
        let x = a.last();
        assert(a.to_multiset().count(x) > 0) by {
            assert(a.contains(x));
        }
        assert(b.contains(x));
        let i = b.index_of(x);
        let n = a.len() - 1;
        lemma_gathered_remove(f, a, n);
        lemma_gathered_remove(f, b, i);
        assert(a.remove(n).to_multiset() =~= a.to_multiset().remove(x));
        assert(b.remove(i).to_multiset() =~= b.to_multiset().remove(x));
        lemma_gathered_ignores_order(f, a.remove(n), b.remove(i));
    } else {
        assert(a =~= b);
    }
}

/// Lanes of two stretches of slots, one behind the other.
pub proof fn lemma_lane_pool_split(out: Seq<i32>, base: nat, slot_orig: Seq<u32>, n: nat, m: nat)
    requires
        n + m <= out.len(),
    ensures
        lane_pool(out, base, slot_orig, n + m) == lane_pool(out, base, slot_orig, n) + lane_pool(out.skip(n as int), base + n, slot_orig, m),
    decreases m,
{
    let tail = out.skip(n as int);
    if m == 0 {
        assert(lane_pool(out, base, slot_orig, n) + lane_pool(tail, base + n, slot_orig, 0) =~= lane_pool(out, base, slot_orig, n));
    } else {
        lemma_lane_pool_split(out, base, slot_orig, n, (m - 1) as nat);
        assert((n + m - 1) as nat == n + (m - 1) as nat);
        let head = lane_pool(out, base, slot_orig, n);
        let rest = lane_pool(tail, base + n, slot_orig, (m - 1) as nat);
        if slot_orig[base + n + m - 1] != NO_POINT {
            assert((head + rest).push((out[n + m - 1], (base + n + m - 1) as u32)) =~= head + rest.push((out[n + m - 1], (base + n + m - 1) as u32)));
        }
    }
}

fn push16(out: &mut Vec<i32>, s: &[i32; 16])
    ensures
        final(out)@ == old(out)@ + s@,
{
    let ghost start = out@;
    let mut j: usize = 0;
    while j < 16
        invariant
            j <= 16,
            out@ =~= start + s@.take(j as int),
        decreases 16 - j,
    {
        out.push(s[j]);
        j = j + 1;
    }
    assert(s@.take(16) =~= s@);
}

impl<R: Router, C: Compressor> Index<R, C> {
    /// The slots of cell `c` lie inside the index.
    pub proof fn lemma_cell_range(&self, c: int)
        requires
            self.main_ok(),
            0 <= c < self.nc(),
        ensures
            0 <= self.cell_bstart@[c] <= self.cell_bstart@[c + 1] <= self.cell_bstart@[self.nc() as int],
            self.cell_bstart@.len() == self.nc() + 1,
    {
    }

    /// Raw rows of the slots of block `b`; empty for a slot without a point.
    fn rows16<'a>(&self, ds: &I8Bin<'a>, b: usize) -> (r: Vec<&'a [i8]>)
        requires
            self.rows_in(ds),
            16 * b + 16 <= self.slot_orig@.len(),
        ensures
            r@.len() == 16,
            row_views(r@) == rows16_of(self.slot_orig@, ds.data@, self.d as nat, b as int),
            forall|j: int| 0 <= j < 16 ==> (#[trigger] r@[j])@.len() == 0 || r@[j]@.len() == self.d,
    {
        let total: usize = self.slot_orig.len();
        let mut rows: Vec<&'a [i8]> = Vec::with_capacity(16);
        let ghost want = rows16_of(self.slot_orig@, ds.data@, self.d as nat, b as int);
        let mut j: usize = 0;
        while j < 16
            invariant
                j <= 16,
                self.rows_in(ds),
                total == self.slot_orig@.len(),
                16 * b + 16 <= total,
                want == rows16_of(self.slot_orig@, ds.data@, self.d as nat, b as int),
                rows@.len() == j,
                forall|i: int| 0 <= i < j ==> (#[trigger] rows@[i])@ == want[i] && (rows@[i]@.len() == 0 || rows@[i]@.len() == self.d),
            decreases 16 - j,
        {
            let o: u32 = self.slot_orig[16 * b + j];
            if o != NO_POINT {
                rows.push(ds.row(o as usize));
            } else {
                let none: &'a [i8] = slice_subrange(ds.data, 0, 0);
                assert(none@ =~= Seq::<i8>::empty());
                rows.push(none);
            }
            j = j + 1;
        }
        assert(row_views(rows@) =~= want);
        rows
    }

    /// Block `b`.
    fn block(&self, b: usize) -> (r: &[u8])
        requires
            self.main_ok(),
            b < self.cell_bstart@[self.nc() as int],
        ensures
            r@ == block_at(self.blocks@, self.bb as nat, b as int),
            r@.len() == self.bb,
    {
        let total: usize = self.blocks.len();
        proof {
            lemma_block_in_range(b as int, self.bb as int, self.cell_bstart@[self.nc() as int] as int);
        }
        slice_subrange(self.blocks.as_slice(), b * self.bb, b * self.bb + self.bb)
    }

    /// One block more of a cell's scores.
    proof fn lemma_next_block(&self, ctx: QueryCtx, q: Seq<i8>, data: Seq<i8>, c: int, k: int)
        requires
            self.main_ok(),
            0 <= c < self.nc(),
            0 <= k < self.cell_bstart@[c + 1] - self.cell_bstart@[c],
            self.scores(ctx, q, data, self.cell_bstart@[c] + k).len() == 16,
        ensures
            self.cell_scores(ctx, q, data, c).take(16 * k) + self.scores(ctx, q, data, self.cell_bstart@[c] + k) == self.cell_scores(ctx, q, data, c).take(16 * k + 16),
    {
        let all = self.cell_scores(ctx, q, data, c);
        let one = self.scores(ctx, q, data, self.cell_bstart@[c] + k);
        assert forall|j: int| 0 <= j < 16 implies all[16 * k + j] == one[j] by {
            assert((16 * k + j) / 16 == k && (16 * k + j) % 16 == j);
        }
        assert(all.take(16 * k) + one =~= all.take(16 * k + 16));
    }

    /// Score every slot of a cell.
    pub fn score_cell(&self, ds: &I8Bin<'_>, q: &[i8], cell: u32, ctx: &QueryCtx, use512: bool) -> (r: Vec<i32>)
        requires
            self.main_ok(),
            self.ctx_fits(*ctx),
            cell < self.nc(),
            self.comp.raw_rows() ==> q@.len() == self.d && self.rows_in(ds),
        ensures
            r@ == self.cell_scores(*ctx, q@, ds.data@, cell as int),
    {
        let c: usize = cell as usize;
        proof {
            self.lemma_cell_range(cell as int);
        }
        let starts: usize = self.cell_bstart.len();
        let bs: usize = self.cell_bstart[c] as usize;
        let be: usize = self.cell_bstart[c + 1] as usize;
        if self.comp.needs_raw_rows() {
            return self.score_rows(ds, q, cell, ctx);
        }
        if use512 && self.blocks_il.len() > 0 {
            if let QueryCtx::Pq8 { lut, scale } = ctx {
                return self.score_groups(Ghost(ds.data@), Ghost(q@), cell, ctx, lut);
            }
        }
        let ghost all = self.cell_scores(*ctx, q@, ds.data@, cell as int);
        let mut out: Vec<i32> = Vec::new();
        let mut out16: [i32; 16] = [0; 16];
        let mut out32: [i32; 32] = [0; 32];
        let none: [i8; 0] = [];
        let no_rows: Vec<&[i8]> = Vec::new();
        let mut b: usize = bs;
        assert(out@ =~= all.take(0));
        while b + 1 < be
            invariant
                bs <= b <= be,
                self.main_ok(),
                self.ctx_fits(*ctx),
                !self.comp.raw_rows(),
                cell < self.nc(),
                bs == self.cell_bstart@[cell as int],
                be == self.cell_bstart@[cell + 1],
                be <= self.cell_bstart@[self.nc() as int],
                all == self.cell_scores(*ctx, q@, ds.data@, cell as int),
                out@ == all.take(16 * (b - bs)),
            decreases be - b,
        {
            self.comp.scan_block_x2(self.block(b), self.block(b + 1), ctx, &mut out32);
            proof {
                let s0 = self.scores(*ctx, q@, ds.data@, b as int);
                let s1 = self.scores(*ctx, q@, ds.data@, b + 1);
                assert(out32@.take(16) == s0);
                assert(out32@.skip(16) == s1);
                assert(out32@ =~= s0 + s1);
                self.lemma_next_block(*ctx, q@, ds.data@, cell as int, b - bs);
                self.lemma_next_block(*ctx, q@, ds.data@, cell as int, b + 1 - bs);
            }
            push32(&mut out, &out32);
            proof {
                let s0 = self.scores(*ctx, q@, ds.data@, b as int);
                let s1 = self.scores(*ctx, q@, ds.data@, b + 1);
                assert(out@ =~= all.take(16 * (b - bs)) + s0 + s1);
            }
            b = b + 2;
        }
        if b < be {
            self.comp.scan_block(self.block(b), ctx, none.as_slice(), &no_rows, &mut out16);
            proof {
                assert(out16@ == self.scores(*ctx, q@, ds.data@, b as int));
                self.lemma_next_block(*ctx, q@, ds.data@, cell as int, b - bs);
            }
            push16(&mut out, &out16);
        }
        proof {
            assert(all.take(16 * (be - bs)) =~= all);
        }
        out
    }

    /// Score a cell from the raw rows of its points.
    fn score_rows(&self, ds: &I8Bin<'_>, q: &[i8], cell: u32, ctx: &QueryCtx) -> (r: Vec<i32>)
        requires
            self.main_ok(),
            self.ctx_fits(*ctx),
            cell < self.nc(),
            self.comp.raw_rows(),
            q@.len() == self.d,
            self.rows_in(ds),
        ensures
            r@ == self.cell_scores(*ctx, q@, ds.data@, cell as int),
    {
        let c: usize = cell as usize;
        proof {
            self.lemma_cell_range(cell as int);
        }
        let starts: usize = self.cell_bstart.len();
        let bs: usize = self.cell_bstart[c] as usize;
        let be: usize = self.cell_bstart[c + 1] as usize;
        let ghost all = self.cell_scores(*ctx, q@, ds.data@, cell as int);
        let mut out: Vec<i32> = Vec::new();
        let mut out16: [i32; 16] = [0; 16];
        let mut b: usize = bs;
        assert(out@ =~= all.take(0));
        while b < be
            invariant
                bs <= b <= be,
                self.main_ok(),
                self.ctx_fits(*ctx),
                self.comp.raw_rows(),
                q@.len() == self.d,
                self.rows_in(ds),
                cell < self.nc(),
                bs == self.cell_bstart@[cell as int],
                be == self.cell_bstart@[cell + 1],
                be <= self.cell_bstart@[self.nc() as int],
                all == self.cell_scores(*ctx, q@, ds.data@, cell as int),
                out@ == all.take(16 * (b - bs)),
            decreases be - b,
        {
            let rows = self.rows16(ds, b);
            self.comp.scan_block(self.block(b), ctx, q, &rows, &mut out16);
            proof {
                assert(out16@ == self.scores(*ctx, q@, ds.data@, b as int));
                self.lemma_next_block(*ctx, q@, ds.data@, cell as int, b - bs);
            }
            push16(&mut out, &out16);
            b = b + 1;
        }
        proof {
            assert(all.take(16 * (be - bs)) =~= all);
        }
        out
    }

    /// Score a cell from its interleaved groups of 4 blocks, and its last blocks one by one.
    fn score_groups(&self, data: Ghost<Seq<i8>>, q: Ghost<Seq<i8>>, cell: u32, ctx: &QueryCtx, lut: &Vec<i8>) -> (r: Vec<i32>)
        requires
            self.main_ok(),
            self.ctx_fits(*ctx),
            cell < self.nc(),
            self.blocks_il@.len() > 0,
            match *ctx {
                QueryCtx::Pq8 { lut: l, scale } => l == lut,
                _ => false,
            },
        ensures
            r@ == self.cell_scores(*ctx, q@, data@, cell as int),
    {
        let c: usize = cell as usize;
        proof {
            self.lemma_cell_range(cell as int);
        }
        let starts: usize = self.cell_bstart.len();
        let bs: usize = self.cell_bstart[c] as usize;
        let be: usize = self.cell_bstart[c + 1] as usize;
        let bb: usize = self.bb;
        let m: usize = bb / 8;
        let ghost all = self.cell_scores(*ctx, q@, data@, cell as int);
        let ghost half = self.comp.subspaces() / 2;
        let il0: usize = self.cell_ilstart[c] as usize;
        let nfull: usize = (be - bs) / 4;
        let illen: usize = self.blocks_il.len();
        let mut out: Vec<i32> = Vec::new();
        let mut out16: [i32; 16] = [0; 16];
        let mut out64: [i32; 64] = [0; 64];
        assert(out@ =~= all.take(0));
        assert(m / 2 == half);
        let mut s: usize = 0;
        while s < nfull
            invariant
                s <= nfull,
                self.main_ok(),
                self.ctx_fits(*ctx),
                cell < self.nc(),
                self.blocks_il@.len() > 0,
                match *ctx {
                    QueryCtx::Pq8 { lut: l, scale } => l == lut,
                    _ => false,
                },
                bs == self.cell_bstart@[cell as int],
                be == self.cell_bstart@[cell + 1],
                bs <= be <= self.cell_bstart@[self.nc() as int],
                bb == self.bb,
                m == bb / 8,
                half == self.comp.subspaces() / 2,
                m / 2 == half,
                il0 == self.cell_ilstart@[cell as int],
                nfull == (be - bs) / 4,
                illen == self.blocks_il@.len(),
                all == self.cell_scores(*ctx, q@, data@, cell as int),
                out@ == all.take(64 * s),
            decreases nfull - s,
        {
            let ghost g = il0 + s;
            let ghost groups = first_group(self.cell_bstart@, self.nc()) as int;
            let ghost b0 = bs + 4 * s;
            proof {
                assert(self.cell_ilstart@[cell as int] == first_group(self.cell_bstart@, cell as nat));
                assert(first_group(self.cell_bstart@, (cell + 1) as nat) == il0 + nfull);
                lemma_first_group_monotone(self.cell_bstart@, self.nc(), (cell + 1) as nat, self.nc());
                lemma_first_group_bound(self.cell_bstart@, self.nc(), self.nc());
                lemma_block_in_range(g, 4 * bb as int, groups);
                assert(4 * self.bb as nat == 4 * (self.bb as nat));
                assert(group_holds(self.blocks_il@, self.blocks@, self.bb as nat, self.cell_ilstart@[cell as int] + s, self.cell_bstart@[cell as int] + 4 * s));
                assert(4 * bb <= illen);
            }
            let sb: &[u8] = slice_subrange(self.blocks_il.as_slice(), (il0 + s) * (4 * bb), (il0 + s) * (4 * bb) + 4 * bb);
            assert(sb@ =~= block_at(self.blocks_il@, 4 * (self.bb as nat), g));
            block_adc_i8_i16acc_avx512_il(sb, m, lut.as_slice(), &mut out64);
            proof {
                let bl = seq![block_at(self.blocks@, bb as nat, b0), block_at(self.blocks@, bb as nat, b0 + 1), block_at(self.blocks@, bb as nat, b0 + 2), block_at(self.blocks@, bb as nat, b0 + 3)];
                assert forall|i: int| 0 <= i < 64 implies #[trigger] out64@[i] == all[64 * s + i] by {
                    let k = i / 16;
                    let j = i % 16;
                    law_interleaved_scores_agree(lut@, sb@, bl, half, k, j);
                    assert(bl[k] == block_at(self.blocks@, bb as nat, b0 + k));
                    assert((64 * s + i) / 16 == 4 * s + k && (64 * s + i) % 16 == j);
                    assert(self.scores(*ctx, q@, data@, b0 + k)[j] == adc_i8(lut@, bl[k], 16, j as nat, half) as i32);
                }
            }
            let mut j: usize = 0;
            while j < 64
                invariant
                    j <= 64,
                    s < nfull,
                    64 * nfull <= all.len(),
                    forall|i: int| 0 <= i < 64 ==> #[trigger] out64@[i] == all[64 * s + i],
                    out@ =~= all.take(64 * s + j),
                decreases 64 - j,
            {
                out.push(out64[j]);
                j = j + 1;
            }
            s = s + 1;
        }
        let mut b: usize = bs + 4 * nfull;
        while b < be
            invariant
                bs <= b <= be,
                self.main_ok(),
                self.ctx_fits(*ctx),
                cell < self.nc(),
                match *ctx {
                    QueryCtx::Pq8 { lut: l, scale } => l == lut,
                    _ => false,
                },
                bs == self.cell_bstart@[cell as int],
                be == self.cell_bstart@[cell + 1],
                be <= self.cell_bstart@[self.nc() as int],
                bb == self.bb,
                m == bb / 8,
                half == self.comp.subspaces() / 2,
                m / 2 == half,
                all == self.cell_scores(*ctx, q@, data@, cell as int),
                out@ == all.take(16 * (b - bs)),
            decreases be - b,
        {
            block_adc_i8_i16acc(self.block(b), m, lut.as_slice(), &mut out16);
            proof {
                assert(out16@ =~= self.scores(*ctx, q@, data@, b as int));
                self.lemma_next_block(*ctx, q@, data@, cell as int, b - bs);
            }
            push16(&mut out, &out16);
            b = b + 1;
        }
        proof {
            assert(all.take(16 * (be - bs)) =~= all);
        }
        out
    }
}

fn push32(out: &mut Vec<i32>, s: &[i32; 32])
    ensures
        final(out)@ == old(out)@ + s@,
{
    let ghost start = out@;
    let mut j: usize = 0;
    while j < 32
        invariant
            j <= 32,
            out@ =~= start + s@.take(j as int),
        decreases 32 - j,
    {
        out.push(s[j]);
        j = j + 1;
    }
    assert(s@.take(32) =~= s@);
}

impl<R: Router, C: Compressor> Index<R, C> {
    /// What the scores of cell `c` are lowered by.
    pub open spec fn offset_of(&self, ctx: QueryCtx, q: Seq<i8>, c: int) -> int {
        if self.rq_cent@.len() == 0 {
            0
        } else {
            match self.comp.cell_offset(ctx, dot(q, row_of(self.rq_cent@, self.d as nat, c))) {
                Some(off) => off as int,
                None => 0,
            }
        }
    }

    /// Candidates `(score, slot)` of one cell, its offset taken off.
    pub open spec fn shifted_lanes(&self, ctx: QueryCtx, q: Seq<i8>, data: Seq<i8>) -> spec_fn(u32) -> Seq<(i32, u32)> {
        |c: u32| shifted(self.cell_lanes(ctx, q, data, c as int), self.offset_of(ctx, q, c as int))
    }

    /// Candidates `(score, slot)` of one cell.
    pub open spec fn plain_lanes(&self, ctx: QueryCtx, q: Seq<i8>, data: Seq<i8>) -> spec_fn(u32) -> Seq<(i32, u32)> {
        |c: u32| self.cell_lanes(ctx, q, data, c as int)
    }

    /// Candidates `(score, slot)` of a list of cells, the offset of each cell taken off.
    pub open spec fn pool_of(&self, ctx: QueryCtx, q: Seq<i8>, data: Seq<i8>, cells: Seq<u32>) -> Seq<(i32, u32)> {
        gathered(self.shifted_lanes(ctx, q, data), cells)
    }

    /// Candidates `(score, slot)` of a list of cells.
    pub open spec fn plain_pool(&self, ctx: QueryCtx, q: Seq<i8>, data: Seq<i8>, cells: Seq<u32>) -> Seq<(i32, u32)> {
        gathered(self.plain_lanes(ctx, q, data), cells)
    }

    /// All cells of a list exist.
    pub open spec fn cells_exist(&self, cells: Seq<u32>) -> bool {
        forall|i: int| 0 <= i < cells.len() ==> #[trigger] cells[i] < self.nc()
    }

    /// The query and the data fit the index.
    pub open spec fn takes(&self, ds: &I8Bin<'_>, q: Seq<i8>) -> bool {
        q.len() == self.d && (self.comp.raw_rows() ==> self.rows_in(ds))
    }

    /// Candidates `(score, slot)` of the probed cells.
    pub fn scan_pool(&self, ds: &I8Bin<'_>, q: &[i8], cells: &[u32], ctx: &QueryCtx, use512: bool) -> (pool: Vec<(i32, u32)>)
        requires
            self.main_ok(),
            self.ctx_fits(*ctx),
            self.cells_exist(cells@),
            self.takes(ds, q@),
        ensures
            pool@ == self.pool_of(*ctx, q@, ds.data@, cells@),
    {
        let n: usize = cells.len();
        let rqlen: usize = self.rq_cent.len();
        let total: usize = self.slot_orig.len();
        let mut pool: Vec<(i32, u32)> = Vec::new();
        let mut i: usize = 0;
        while i < n
            invariant
                i <= n,
                n == cells@.len(),
                rqlen == self.rq_cent@.len(),
                total == self.slot_orig@.len(),
                self.main_ok(),
                self.ctx_fits(*ctx),
                self.cells_exist(cells@),
                self.takes(ds, q@),
                pool@ == self.pool_of(*ctx, q@, ds.data@, cells@.take(i as int)),
            decreases n - i,
        {
            let cell: u32 = cells[i];
            let scores = self.score_cell(ds, q, cell, ctx, use512);
            let mut off: i32 = 0;
            if rqlen > 0 {
                proof {
                    lemma_row_in_range(cell as int, self.d as int, self.nc() as int, rqlen as int);
                }
                let at: usize = cell as usize * self.d;
                let cent: &[i8] = slice_subrange(self.rq_cent.as_slice(), at, at + self.d);
                let along: i32 = dot_i8_avx2(q, cent);
                match self.comp.residual_offset(ctx, along) {
                    Some(o) => {
                        off = o;
                    },
                    None => {},
                }
            }
            assert(off == self.offset_of(*ctx, q@, cell as int));
            proof {
                self.lemma_cell_range(cell as int);
            }
            let starts: usize = self.cell_bstart.len();
            let base: usize = 16 * self.cell_bstart[cell as usize] as usize;
            let m: usize = scores.len();
            let ghost pool0 = pool@;
            let mut j: usize = 0;
            proof {
                assert(shifted(lane_pool(scores@, base as nat, self.slot_orig@, 0), off as int) =~= Seq::<(i32, u32)>::empty());
                assert(pool@ =~= pool0 + Seq::<(i32, u32)>::empty());
            }
            while j < m
                invariant
                    j <= m,
                    m == scores@.len(),
                    base + m <= total,
                    total == self.slot_orig@.len(),
                    total <= u32::MAX,
                    pool@ == pool0 + shifted(lane_pool(scores@, base as nat, self.slot_orig@, j as nat), off as int),
                decreases m - j,
            {
                if self.slot_orig[base + j] != NO_POINT {
                    let s: i32 = wrapping_difference(scores[j], off);
                    pool.push((s, (base + j) as u32));
                    proof {
                        let l0 = lane_pool(scores@, base as nat, self.slot_orig@, j as nat);
                        let l1 = lane_pool(scores@, base as nat, self.slot_orig@, (j + 1) as nat);
                        assert(l1 == l0.push((scores@[j as int], (base + j) as u32)));
                        assert(shifted(l1, off as int) =~= shifted(l0, off as int).push((s, (base + j) as u32)));
                        assert(pool@ =~= pool0 + shifted(l1, off as int));
                    }
                }
                j = j + 1;
            }
            proof {
                assert(cells@.take(i + 1).drop_last() =~= cells@.take(i as int));
            }
            i = i + 1;
        }
        proof {
            assert(cells@.take(n as int) =~= cells@);
        }
        pool
    }

    /// The `t` best candidates of the probed cells, collected while scanning.
    pub fn scan_pool_fused(&self, ds: &I8Bin<'_>, q: &[i8], cells: &[u32], ctx: &QueryCtx, t: usize, use512: bool) -> (pool: Vec<(i32, u32)>)
        requires
            self.main_ok(),
            self.ctx_fits(*ctx),
            self.cells_exist(cells@),
            self.takes(ds, q@),
            1 <= t <= usize::MAX / 2 - 64,
        ensures
            pool@ == smallest(self.plain_pool(*ctx, q@, ds.data@, cells@), t as nat),
    {
        let n: usize = cells.len();
        let mut top = FusedTopT::new(t);
        let mut i: usize = 0;
        while i < n
            invariant
                i <= n,
                n == cells@.len(),
                self.main_ok(),
                self.ctx_fits(*ctx),
                self.cells_exist(cells@),
                self.takes(ds, q@),
                top.wf(),
                top.cap() == t,
                top@ == self.plain_pool(*ctx, q@, ds.data@, cells@.take(i as int)),
            decreases n - i,
        {
            self.scan_cell_fused(ds, q, cells[i], ctx, &mut top, use512);
            proof {
                assert(cells@.take(i + 1).drop_last() =~= cells@.take(i as int));
            }
            i = i + 1;
        }
        proof {
            assert(cells@.take(n as int) =~= cells@);
        }
        top.finish()
    }

    /// Offer the candidates of one cell to a fused collection.
    pub fn scan_cell_fused(&self, ds: &I8Bin<'_>, q: &[i8], cell: u32, ctx: &QueryCtx, top: &mut FusedTopT, use512: bool)
        requires
            self.main_ok(),
            self.ctx_fits(*ctx),
            cell < self.nc(),
            self.takes(ds, q@),
            old(top).wf(),
        ensures
            final(top).wf(),
            final(top).cap() == old(top).cap(),
            final(top)@ == old(top)@ + self.cell_lanes(*ctx, q@, ds.data@, cell as int),
    {
        let scores = self.score_cell(ds, q, cell, ctx, use512);
        proof {
            self.lemma_cell_range(cell as int);
        }
        let starts: usize = self.cell_bstart.len();
        let total: usize = self.slot_orig.len();
        let base: usize = 16 * self.cell_bstart[cell as usize] as usize;
        let m: usize = scores.len();
        let ghost seen0 = top@;
        let mut j: usize = 0;
        assert(top@ =~= seen0 + lane_pool(scores@, base as nat, self.slot_orig@, 0));
        while j < m
            invariant
                j <= m,
                m == scores@.len(),
                m % 16 == 0,
                j % 16 == 0,
                base + m <= total,
                total == self.slot_orig@.len(),
                total <= u32::MAX,
                top.wf(),
                top.cap() == old(top).cap(),
                top@ == seen0 + lane_pool(scores@, base as nat, self.slot_orig@, j as nat),
            decreases m - j,
        {
            let part: &[i32] = slice_subrange(scores.as_slice(), j, j + 16);
            top.emit(part, base + j, self.slot_orig.as_slice());
            proof {
                lemma_lane_pool_split(scores@, base as nat, self.slot_orig@, j as nat, 16);
                lemma_lane_pool_reads(part@, scores@.skip(j as int), (base + j) as nat, self.slot_orig@, 16);
                assert(top@ =~= seen0 + lane_pool(scores@, base as nat, self.slot_orig@, (j + 16) as nat));
            }
            j = j + 16;
        }
    }
}

proof fn lemma_lane_pool_reads(a: Seq<i32>, b: Seq<i32>, base: nat, slot_orig: Seq<u32>, n: nat)
    requires
        forall|i: int| 0 <= i < n ==> a[i] == b[i],
    ensures
        lane_pool(a, base, slot_orig, n) == lane_pool(b, base, slot_orig, n),
    decreases n,
{
    if n > 0 {
        lemma_lane_pool_reads(a, b, base, slot_orig, (n - 1) as nat);
    }
}

fn wrapping_difference(a: i32, b: i32) -> (r: i32)
    ensures
        r == wrap32(a - b),
{
    let x: i64 = a as i64 - b as i64;
    if x > 0x7fff_ffff {
        (x - 0x1_0000_0000) as i32
    } else if x < -0x8000_0000 {
        (x + 0x1_0000_0000) as i32
    } else {
        x as i32
    }
}

} // verus!
