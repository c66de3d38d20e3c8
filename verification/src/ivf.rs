//! A plain inverted file: pivots drawn from the rows, the points of each cell side by side, and
//! two searches over it, one that ranks every point of the probed cells exactly and one that scans
//! packed codes first.
use vstd::prelude::*;
use vstd::slice::slice_subrange;
use crate::ibin::I8Bin;
use crate::layout::{below, blocks_for, bucket, lemma_below_all, lemma_below_monotone, lemma_members_are_points, members, padded, push_row, Buckets};
use crate::order::{ascending, keep_smallest, smallest};
use crate::pq::{adc_saturating, block_adc_sse, pack_block, packed};
use crate::rerank::{distinct_ids, topk_dedup, NO_POINT};
use crate::router::{ids_of, FlatIvf, Router};
use crate::scan::gathered;
use crate::simd::{l2, l2_i8, lemma_row_in_range, row_of, L2_DIM};

verus! {

/// The seed of the generator that draws the pivots.
pub const PIVOT_SEED: u64 = 0x9e37_79b9_7f4a_7c15;

/// One step of that generator.
pub open spec fn next_seed(s: u64) -> u64 {
    s.wrapping_mul(6364136223846793005).wrapping_add(1442695040888963407)
}

/// The seed after `n` steps.
pub open spec fn seed_after(n: nat) -> u64
    decreases n,
{
    if n == 0 {
        PIVOT_SEED
    } else {
        next_seed(seed_after((n - 1) as nat))
    }
}

/// The row that pivot `j` is a copy of.
pub open spec fn pivot_row(j: nat, nb: nat) -> int {
    (seed_after(j + 1) >> 11) as int % nb as int
}

/// Cells of every row, `a0` to a row.
pub open spec fn assignment(r: FlatIvf, data: Seq<i8>, nb: nat, a0: nat) -> Seq<u32> {
    Seq::new(
        nb * a0,
        |i: int| {
            let row = row_of(data, r.d as nat, i / (a0 as int));
            r.assigned(row, row, a0)[i % (a0 as int)]
        },
    )
}

/// Exact distances of some points, with their ids.
pub open spec fn exact_pool(data: Seq<i8>, d: nat, q: Seq<i8>, ids: Seq<u32>) -> Seq<(i32, u32)> {
    Seq::new(ids.len(), |i: int| (l2(q, row_of(data, d, ids[i] as int)) as i32, ids[i]))
}

/// The `k` nearest distinct ids of a candidate list.
pub open spec fn ranked_ids(cand: Seq<(i32, u32)>, k: nat) -> Seq<u32> {
    distinct_ids(ascending(cand), k, cand.len())
}

/// How many of the first `n` counts are not zero.
pub open spec fn filled_cells(counts: Seq<u32>, n: nat) -> nat
    decreases n,
{
    if n == 0 {
        0
    } else {
        filled_cells(counts, (n - 1) as nat) + if counts[n - 1] > 0 { 1nat } else { 0nat }
    }
}

/// The largest of the first `n` counts.
pub open spec fn fullest_cell(counts: Seq<u32>, n: nat) -> u32
    decreases n,
{
    if n == 0 {
        0
    } else {
        let before = fullest_cell(counts, (n - 1) as nat);
        if counts[n - 1] > before { counts[n - 1] } else { before }
    }
}

/// An inverted file.
pub struct Ivf {
    pub router: FlatIvf,
    pub cells: Buckets,
}

impl Ivf {
    /// Every cell is a stretch of the stored points.
    pub open spec fn cells_ok(&self) -> bool {
        &&& self.router.wf()
        &&& self.cells.start@.len() == self.router.c + 1
        &&& forall|a: int, b: int| 0 <= a <= b <= self.router.c ==> #[trigger] self.cells.start@[a] <= #[trigger] self.cells.start@[b]
        &&& self.cells.start@[self.router.c as int] <= self.cells.ids@.len()
    }

    /// The cells hold points below `nb`.
    pub open spec fn wf(&self, nb: nat) -> bool {
        &&& self.cells_ok()
        &&& forall|i: int| 0 <= i < self.cells.ids@.len() ==> #[trigger] self.cells.ids@[i] < nb
    }

    /// Candidates of one cell with their exact distances.
    pub open spec fn cell_pool(&self, data: Seq<i8>, q: Seq<i8>) -> spec_fn(u32) -> Seq<(i32, u32)> {
        self.cells.scored(data, self.router.d as nat, q)
    }

    /// What a search returns.
    pub open spec fn found(&self, data: Seq<i8>, q: Seq<i8>, qn: Seq<i8>, p: nat, k: nat) -> Seq<u32> {
        ranked_ids(gathered(self.cell_pool(data, q), self.router.probed(q, qn, p)), k)
    }
}

/// The rows that the pivots are copies of.
pub fn pivot_rows(c: usize, nb: usize) -> (r: Vec<usize>)
    requires
        nb > 0,
    ensures
        r@.len() == c,
        forall|j: int| 0 <= j < c ==> #[trigger] r@[j] == pivot_row(j as nat, nb as nat) && r@[j] < nb,
{
    let mut out: Vec<usize> = Vec::new();
    let mut seed: u64 = PIVOT_SEED;
    let mut j: usize = 0;
    while j < c
        invariant
            j <= c,
            nb > 0,
            seed == seed_after(j as nat),
            out@.len() == j,
            forall|i: int| 0 <= i < j ==> #[trigger] out@[i] == pivot_row(i as nat, nb as nat) && out@[i] < nb,
        decreases c - j,
    {
        seed = seed.wrapping_mul(6364136223846793005).wrapping_add(1442695040888963407);
        let id: u64 = (seed >> 11) % (nb as u64);
        out.push(id as usize);
        j = j + 1;
    }
    out
}

/// Copies of some rows, side by side.
pub fn copy_rows(src: &I8Bin<'_>, rows: &Vec<usize>) -> (r: Vec<i8>)
    requires
        src.wf(),
        forall|i: int| 0 <= i < rows@.len() ==> #[trigger] rows@[i] < src.nb,
        rows@.len() * src.d <= usize::MAX,
    ensures
        r@.len() == rows@.len() * src.d,
        forall|j: int| 0 <= j < rows@.len() ==> #[trigger] row_of(r@, src.d as nat, j) == src.spec_row(rows@[j] as int),
{
    let d: usize = src.d;
    let c: usize = rows.len();
    let mut out: Vec<i8> = Vec::new();
    let mut j: usize = 0;
    assert(0 * d == 0) by (nonlinear_arith);
    while j < c
        invariant
            j <= c,
            c == rows@.len(),
            d == src.d,
            src.wf(),
            forall|i: int| 0 <= i < rows@.len() ==> #[trigger] rows@[i] < src.nb,
            out@.len() == j * d,
            forall|i: int| 0 <= i < j ==> #[trigger] row_of(out@, d as nat, i) == src.spec_row(rows@[i] as int),
        decreases c - j,
    {
        let ghost before = out@;
        let row: &[i8] = src.row(rows[j]);
        push_row(&mut out, row);
        proof {
            assert((j + 1) * d == j * d + d) by (nonlinear_arith);
            assert forall|i: int| 0 <= i < j + 1 implies #[trigger] row_of(out@, d as nat, i) == src.spec_row(rows@[i] as int) by {
                if i < j {
                    lemma_row_in_range(i, d as int, j as int, before.len() as int);
                    assert(row_of(out@, d as nat, i) =~= row_of(before, d as nat, i));
                } else {
                    assert(row_of(out@, d as nat, i) =~= row@);
                }
            }
        }
        j = j + 1;
    }
    out
}

/// The cells of every row, `a0` to a row.
fn assign_rows(router: &FlatIvf, norm: &I8Bin<'_>, a0: usize) -> (assign: Vec<u32>)
    requires
        norm.wf(),
        router.wf(),
        router.d == norm.d,
        1 <= a0 <= 8,
    ensures
        assign@ == assignment(*router, norm.data@, norm.nb as nat, a0 as nat),
        forall|t: int| 0 <= t < assign@.len() ==> #[trigger] assign@[t] < router.c,
{
    let nb: usize = norm.nb;
    let ghost want = assignment(*router, norm.data@, nb as nat, a0 as nat);
    let mut assign: Vec<u32> = Vec::new();
    let mut top: Vec<u32> = Vec::new();
    let mut i: usize = 0;
    assert(0 * a0 == 0) by (nonlinear_arith);
    while i < nb
        invariant
            i <= nb,
            nb == norm.nb,
            norm.wf(),
            router.wf(),
            router.d == norm.d,
            1 <= a0 <= 8,
            want == assignment(*router, norm.data@, nb as nat, a0 as nat),
            assign@.len() == i * a0,
            forall|t: int| 0 <= t < assign@.len() ==> #[trigger] assign@[t] == want[t] && assign@[t] < router.c,
        decreases nb - i,
    {
        let row: &[i8] = norm.row(i);
        router.assign(row, row, a0, &mut top);
        assert(top@.len() == a0);
        let mut s: usize = 0;
        while s < a0
            invariant
                i < nb,
                s <= a0,
                1 <= a0,
                row@ == norm.spec_row(i as int),
                router.d == norm.d,
                want == assignment(*router, norm.data@, nb as nat, a0 as nat),
                top@ == router.assigned(row@, row@, a0 as nat),
                top@.len() == a0,
                forall|t: int| 0 <= t < top@.len() ==> #[trigger] top@[t] < router.c,
                assign@.len() == i * a0 + s,
                forall|t: int| 0 <= t < assign@.len() ==> #[trigger] assign@[t] == want[t] && assign@[t] < router.c,
            decreases a0 - s,
        {
            proof {
                vstd::arithmetic::div_mod::lemma_fundamental_div_mod_converse(i * a0 + s, a0 as int, i as int, s as int);
                assert(i * a0 + s < nb * a0) by (nonlinear_arith)
                    requires
                        i < nb,
                        s < a0,
                ;
                assert(want[i * a0 + s] == top@[s as int]);
            }
            assign.push(top[s]);
            s = s + 1;
        }
        assert((i + 1) * a0 == i * a0 + a0) by (nonlinear_arith);
        i = i + 1;
    }
    assert(assign@ =~= want);
    assign
}

/// The buckets of an assignment of `nb` points hold points below `nb`.
pub proof fn lemma_buckets_hold_points(b: Buckets, assign: Seq<u32>, a0: nat, nc: nat, nb: nat)
    requires
        b.group(assign, a0, nc),
        a0 >= 1,
        assign.len() == nb * a0,
        nb <= u32::MAX,
        forall|i: int| 0 <= i < assign.len() ==> #[trigger] assign[i] < nc,
    ensures
        forall|x: int, y: int| 0 <= x <= y <= nc ==> #[trigger] b.start@[x] <= #[trigger] b.start@[y],
        b.start@[nc as int] == b.ids@.len(),
        forall|t: int| 0 <= t < b.ids@.len() ==> #[trigger] b.ids@[t] < nb,
{
    let n = assign.len();
    lemma_below_all(assign, a0, nc, n);
    assert forall|x: int, y: int| 0 <= x <= y <= nc implies #[trigger] b.start@[x] <= #[trigger] b.start@[y] by {
        lemma_below_monotone(assign, a0, x as nat, y as nat, n);
    }
    assert(b.start@[nc as int] == n);
    assert forall|t: int| 0 <= t < b.ids@.len() implies #[trigger] b.ids@[t] < nb by {
        lemma_owner(b, assign, a0, nc, nc, t);
        let e = choose|e: int| 0 <= e < nc && b.start@[e] <= t < #[trigger] b.start@[e + 1];
        lemma_members_are_points(assign, a0, e, n, nb);
        let cell = b.of(e);
        assert(cell == members(assign, a0, e, n));
        assert(b.start@[e + 1] <= b.start@[nc as int]);
        let k = t - b.start@[e];
        assert(0 <= k < cell.len());
        assert(cell[k] == b.ids@[t]);
        assert(members(assign, a0, e, n)[k] < nb);
    }
}

/// Build an inverted file of `c` cells from normalised rows: the pivots are rows drawn by a fixed
/// generator, and every row goes into its `a0` nearest cells.
pub fn build_ivf(norm: &I8Bin<'_>, c: usize, a0: usize) -> (r: Ivf)
    requires
        norm.wf(),
        0 < norm.nb,
        0 < norm.d <= L2_DIM,
        0 < c <= u32::MAX,
        c < usize::MAX,
        c * norm.d <= usize::MAX,
        1 <= a0 <= 8,
        norm.nb * a0 <= u32::MAX,
    ensures
        r.wf(norm.nb as nat),
        r.router.d == norm.d,
        r.router.c == c,
        forall|j: int| 0 <= j < c ==> #[trigger] row_of(r.router.pivots@, norm.d as nat, j) == norm.spec_row(pivot_row(j as nat, norm.nb as nat)),
        r.cells.group(assignment(r.router, norm.data@, norm.nb as nat, a0 as nat), a0 as nat, c as nat),
{
    let rows: Vec<usize> = pivot_rows(c, norm.nb);
    let pivots: Vec<i8> = copy_rows(norm, &rows);
    let router: FlatIvf = FlatIvf { d: norm.d, c, pivots };
    let assign: Vec<u32> = assign_rows(&router, norm, a0);
    let cells: Buckets = bucket(&assign, a0, c);
    proof {
        assert(norm.nb <= u32::MAX) by (nonlinear_arith)
            requires
                norm.nb * a0 <= u32::MAX,
                a0 >= 1,
        ;
        lemma_buckets_hold_points(cells, assign@, a0 as nat, c as nat, norm.nb as nat);
    }
    Ivf { router, cells }
}

/// Every stored point belongs to a cell.
proof fn lemma_owner(b: Buckets, assign: Seq<u32>, a0: nat, nc: nat, c: nat, t: int)
    requires
        b.group(assign, a0, nc),
        c <= nc,
        0 <= t < below(assign, a0, c, assign.len()),
    ensures
        exists|e: int| 0 <= e < c && b.start@[e] <= t < #[trigger] b.start@[e + 1],
    decreases c,
{
    if c > 0 {
        let p = below(assign, a0, (c - 1) as nat, assign.len());
        assert(b.start@[c - 1] == p);
        assert(b.start@[(c - 1) + 1] == below(assign, a0, c, assign.len()));
        if t < p {
            lemma_owner(b, assign, a0, nc, (c - 1) as nat, t);
            let e = choose|e: int| 0 <= e < c - 1 && b.start@[e] <= t < #[trigger] b.start@[e + 1];
            assert(0 <= e < c && b.start@[e] <= t < b.start@[e + 1]);
        }
    }
}

impl Ivf {
    /// How many points each cell holds.
    pub fn cell_counts(&self) -> (r: Vec<u32>)
        requires
            self.cells_ok(),
        ensures
            r@.len() == self.router.c,
            forall|c: int| 0 <= c < r@.len() ==> #[trigger] r@[c] == self.cells.of(c).len(),
    {
        let mut out: Vec<u32> = Vec::new();
        let n: usize = self.router.c;
        let mut c: usize = 0;
        while c < n
            invariant
                c <= n,
                n == self.router.c,
                self.cells_ok(),
                out@.len() == c,
                forall|e: int| 0 <= e < c ==> #[trigger] out@[e] == self.cells.of(e).len(),
            decreases n - c,
        {
            assert(self.cells.start@[c as int] <= self.cells.start@[c + 1] <= self.cells.start@[n as int]);
            out.push(self.cells.start[c + 1] - self.cells.start[c]);
            c = c + 1;
        }
        out
    }
}

/// How many of the counts are not zero, and the largest of them.
pub fn occupancy(counts: &Vec<u32>) -> (r: (usize, u32))
    ensures
        r.0 == filled_cells(counts@, counts@.len()),
        r.1 == fullest_cell(counts@, counts@.len()),
{
    let n: usize = counts.len();
    let mut filled: usize = 0;
    let mut most: u32 = 0;
    let mut i: usize = 0;
    while i < n
        invariant
            i <= n,
            n == counts@.len(),
            filled <= i,
            filled == filled_cells(counts@, i as nat),
            most == fullest_cell(counts@, i as nat),
        decreases n - i,
    {
        let v: u32 = counts[i];
        if v > 0 {
            filled = filled + 1;
        }
        if v > most {
            most = v;
        }
        i = i + 1;
    }
    (filled, most)
}

impl Buckets {
    /// Every cell is a stretch of the points, and these lie below `nb`.
    pub open spec fn sound(&self, nb: nat) -> bool {
        &&& self.start@.len() >= 1
        &&& forall|a: int, b: int| 0 <= a <= b < self.start@.len() ==> #[trigger] self.start@[a] <= #[trigger] self.start@[b]
        &&& self.start@.last() <= self.ids@.len()
        &&& forall|i: int| 0 <= i < self.ids@.len() ==> #[trigger] self.ids@[i] < nb
    }

    /// The points of each cell with their exact distances.
    pub open spec fn scored(&self, data: Seq<i8>, d: nat, q: Seq<i8>) -> spec_fn(u32) -> Seq<(i32, u32)> {
        |c: u32| exact_pool(data, d, q, self.of(c as int))
    }

    /// Append the exact distances of a cell's points.
    fn gather_cell(&self, ds: &I8Bin<'_>, q: &[i8], cell: u32, cand: &mut Vec<(i32, u32)>)
        requires
            self.sound(ds.nb as nat),
            ds.wf(),
            ds.d <= L2_DIM,
            q@.len() == ds.d,
            cell + 1 < self.start@.len(),
        ensures
            final(cand)@ == old(cand)@ + self.scored(ds.data@, ds.d as nat, q@)(cell),
    {
        let c: usize = cell as usize;
        let starts: usize = self.start.len();
        let ghost start = cand@;
        let ghost d = ds.d as nat;
        assert(c + 1 < starts);
        assert(self.start@[c as int] <= self.start@[c + 1] <= self.start@[self.start@.len() - 1]);
        let s: usize = self.start[c] as usize;
        let e: usize = self.start[c + 1] as usize;
        let ghost pts = self.of(c as int);
        let ghost want = exact_pool(ds.data@, d, q@, pts);
        let mut i: usize = s;
        assert(cand@ =~= start + want.take(0));
        while i < e
            invariant
                s <= i <= e,
                e <= self.ids@.len(),
                self.sound(ds.nb as nat),
                ds.wf(),
                d == ds.d,
                ds.d <= L2_DIM,
                q@.len() == ds.d,
                pts == self.ids@.subrange(s as int, e as int),
                want == exact_pool(ds.data@, d, q@, pts),
                cand@ == start + want.take(i - s),
            decreases e - i,
        {
            let id: u32 = self.ids[i];
            assert(id == pts[i - s]);
            let dist: i32 = l2_i8(q, ds.row(id as usize));
            cand.push((dist, id));
            assert(cand@ =~= start + want.take(i - s + 1));
            i = i + 1;
        }
        assert(want.take(e - s) =~= want);
    }

    /// The points of a list of cells with their exact distances, cell by cell.
    pub fn candidates(&self, ds: &I8Bin<'_>, q: &[i8], cells: &Vec<u32>) -> (r: Vec<(i32, u32)>)
        requires
            self.sound(ds.nb as nat),
            ds.wf(),
            ds.d <= L2_DIM,
            q@.len() == ds.d,
            forall|i: int| 0 <= i < cells@.len() ==> #[trigger] cells@[i] + 1 < self.start@.len(),
        ensures
            r@ == gathered(self.scored(ds.data@, ds.d as nat, q@), cells@),
    {
        let mut cand: Vec<(i32, u32)> = Vec::new();
        let n: usize = cells.len();
        let ghost f = self.scored(ds.data@, ds.d as nat, q@);
        let mut i: usize = 0;
        assert(cells@.take(0) =~= Seq::<u32>::empty());
        while i < n
            invariant
                i <= n,
                n == cells@.len(),
                self.sound(ds.nb as nat),
                ds.wf(),
                ds.d <= L2_DIM,
                q@.len() == ds.d,
                f == self.scored(ds.data@, ds.d as nat, q@),
                forall|j: int| 0 <= j < n ==> #[trigger] cells@[j] + 1 < self.start@.len(),
                cand@ == gathered(f, cells@.take(i as int)),
            decreases n - i,
        {
            assert(cells@.take(i + 1).drop_last() =~= cells@.take(i as int));
            assert(cells@.take(i + 1).last() == cells@[i as int]);
            self.gather_cell(ds, q, cells[i], &mut cand);
            i = i + 1;
        }
        assert(cells@.take(n as int) =~= cells@);
        cand
    }
}

impl Ivf {
    /// Search the `p` nearest cells: their points, ranked by exact distance, the first `k` distinct
    /// ids.
    pub fn search(&self, ds: &I8Bin<'_>, q: &[i8], qn: &[i8], p: usize, k: usize) -> (r: Vec<u32>)
        requires
            self.wf(ds.nb as nat),
            ds.wf(),
            ds.d == self.router.d,
            q@.len() == ds.d,
            qn@.len() == ds.d,
            p >= 1,
        ensures
            r@ == self.found(ds.data@, q@, qn@, p as nat, k as nat),
    {
        let cells: Vec<u32> = self.router.probe(q, qn, p);
        let cand = self.cells.candidates(ds, q, &cells);
        topk_dedup(cand, k)
    }
}

/// Packed codes of the points of an inverted file, in blocks of 16 slots: cell `c` owns the blocks
/// `cell_bstart[c]..cell_bstart[c + 1]`.
pub struct PqIndex {
    pub blocks: Vec<u8>,
    pub cell_bstart: Vec<u32>,
    pub slot_orig: Vec<u32>,
    pub m: usize,
    pub bb: usize,
}

/// The byte of a block that packs the codes of a slot's point in subspaces `2 g` and `2 g + 1`; zero
/// for an empty slot.
pub open spec fn slot_byte(codes: Seq<u8>, m: nat, id: u32, g: int) -> u8 {
    if id == NO_POINT {
        0
    } else {
        codes[id * m + 2 * g] | (codes[id * m + 2 * g + 1] << 4u8)
    }
}

/// The points of cell `c` of a block layout, and its empty slots.
pub open spec fn slots_of(idx: PqIndex, c: int) -> Seq<u32> {
    idx.slot_orig@.subrange(16 * idx.cell_bstart@[c], 16 * idx.cell_bstart@[c + 1])
}

/// Scores and ids of the first `n` slots of block `b`, without the empty ones.
pub open spec fn lanes(idx: PqIndex, lut: Seq<i8>, b: int, n: nat) -> Seq<(i32, u32)>
    decreases n,
{
    if n == 0 {
        Seq::empty()
    } else {
        let before = lanes(idx, lut, b, (n - 1) as nat);
        let id = idx.slot_orig@[16 * b + n - 1];
        if id == NO_POINT {
            before
        } else {
            let block = idx.blocks@.subrange(b * idx.bb, b * idx.bb + idx.bb);
            before.push((adc_saturating(lut, block, (n - 1) as nat, (idx.m / 2) as nat) as i32, id))
        }
    }
}

/// Scores and ids of the blocks `from..to`.
pub open spec fn block_lanes(idx: PqIndex, lut: Seq<i8>, from: int, to: int) -> Seq<(i32, u32)>
    decreases to - from,
{
    if to <= from {
        Seq::empty()
    } else {
        block_lanes(idx, lut, from, to - 1) + lanes(idx, lut, to - 1, 16)
    }
}

/// The ids of a pool with their exact distances.
pub open spec fn rescored_ids(pool: Seq<(i32, u32)>, data: Seq<i8>, d: nat, q: Seq<i8>) -> Seq<(i32, u32)> {
    exact_pool(data, d, q, ids_of(pool))
}

/// The `t` best candidates; all of them for `t` zero.
pub open spec fn capped_pool(pool: Seq<(i32, u32)>, t: nat) -> Seq<(i32, u32)> {
    if t == 0 {
        pool
    } else {
        smallest(pool, t)
    }
}

impl PqIndex {
    /// The arrays fit each other and the points lie below `nb`.
    pub open spec fn wf(&self, nc: nat, nb: nat) -> bool {
        &&& self.bb == (self.m / 2) * 16
        &&& self.cell_bstart@.len() == nc + 1
        &&& forall|a: int, b: int| 0 <= a <= b <= nc ==> #[trigger] self.cell_bstart@[a] <= #[trigger] self.cell_bstart@[b]
        &&& self.slot_orig@.len() == 16 * self.cell_bstart@[nc as int]
        &&& self.blocks@.len() == self.cell_bstart@[nc as int] * self.bb
        &&& forall|i: int| 0 <= i < self.slot_orig@.len() ==> #[trigger] self.slot_orig@[i] == NO_POINT || self.slot_orig@[i] < nb
    }

    /// Every block packs the codes of its slots.
    pub open spec fn packs(&self, codes: Seq<u8>) -> bool {
        packed_slots(self.blocks@, self.slot_orig@, self.bb as int, self.m as nat, codes)
    }

    /// Scores and ids of one cell.
    pub open spec fn cell_lanes(&self, lut: Seq<i8>) -> spec_fn(u32) -> Seq<(i32, u32)> {
        |c: u32| block_lanes(*self, lut, self.cell_bstart@[c as int] as int, self.cell_bstart@[c + 1] as int)
    }

    /// What a search returns: the candidates of the probed cells, the `t` best by their codes, ranked
    /// by exact distance.
    pub open spec fn found(&self, lut: Seq<i8>, data: Seq<i8>, d: nat, q: Seq<i8>, cells: Seq<u32>, t: nat, k: nat) -> Seq<u32> {
        ranked_ids(rescored_ids(capped_pool(gathered(self.cell_lanes(lut), cells), t), data, d, q), k)
    }
}

/// Where byte `g` of slot `j` of block `b` stands.
pub open spec fn byte_at(b: int, bb: int, g: int, j: int) -> int {
    b * bb + g * 16 + j
}

/// Every block packs the codes of its slots.
pub open spec fn packed_slots(blocks: Seq<u8>, slot_orig: Seq<u32>, bb: int, m: nat, codes: Seq<u8>) -> bool {
    forall|b: int, g: int, j: int|
        0 <= b && 16 * b < slot_orig.len() && 0 <= g < m / 2 && 0 <= j < 16 ==> blocks[#[trigger] byte_at(b, bb, g, j)] == slot_byte(codes, m, slot_orig[16 * b + j], g)
}

/// The slots of a block: `cnt` points from position `from` on, then empty slots.
pub open spec fn block_slots(pts: Seq<u32>, from: int, cnt: int) -> Seq<u32> {
    Seq::new(16, |j: int| if j < cnt { pts[from + j] } else { NO_POINT })
}

/// The bytes that pack the codes of 16 slots.
pub open spec fn slots_packed(codes: Seq<u8>, m: nat, slots: Seq<u32>) -> Seq<u8> {
    Seq::new((m / 2) * 16, |p: int| slot_byte(codes, m, slots[p % 16], p / 16))
}

/// Codes of one slot; zeros for an empty one.
fn codes_of(codes: &Vec<u8>, m: usize, id: u32, nb: usize) -> (r: Vec<u8>)
    requires
        codes@.len() == nb * m,
        id == NO_POINT || id < nb,
    ensures
        r@.len() == m,
        id == NO_POINT ==> forall|s: int| 0 <= s < m ==> #[trigger] r@[s] == 0,
        id != NO_POINT ==> forall|s: int| 0 <= s < m ==> #[trigger] r@[s] == codes@[id * m + s],
{
    let total: usize = codes.len();
    let mut out: Vec<u8> = Vec::new();
    let mut s: usize = 0;
    proof {
        if id != NO_POINT {
            lemma_row_in_range(id as int, m as int, nb as int, total as int);
        }
    }
    while s < m
        invariant
            s <= m,
            total == codes@.len(),
            id != NO_POINT ==> 0 <= id * m && id * m + m <= total,
            out@.len() == s,
            id == NO_POINT ==> forall|t: int| 0 <= t < s ==> #[trigger] out@[t] == 0,
            id != NO_POINT ==> forall|t: int| 0 <= t < s ==> #[trigger] out@[t] == codes@[id * m + t],
        decreases m - s,
    {
        if id == NO_POINT {
            out.push(0);
        } else {
            out.push(codes[id as usize * m + s]);
        }
        s = s + 1;
    }
    out
}

/// Append one block: its slots and their packed codes.
fn pack_chunk(pts: &[u32], from: usize, cnt: usize, codes: &Vec<u8>, m: usize, nb: usize, slot_orig: &mut Vec<u32>, blocks: &mut Vec<u8>)
    requires
        from + cnt <= pts@.len(),
        cnt <= 16,
        codes@.len() == nb * m,
        nb <= u32::MAX,
        forall|i: int| 0 <= i < pts@.len() ==> #[trigger] pts@[i] < nb,
    ensures
        final(slot_orig)@ == old(slot_orig)@ + block_slots(pts@, from as int, cnt as int),
        final(blocks)@ == old(blocks)@ + slots_packed(codes@, m as nat, block_slots(pts@, from as int, cnt as int)),
{
    let ghost slots = block_slots(pts@, from as int, cnt as int);
    let ghost start = slot_orig@;
    let np: usize = pts.len();
    let mut codes16: Vec<Vec<u8>> = Vec::new();
    let mut j: usize = 0;
    while j < 16
        invariant
            j <= 16,
            np == pts@.len(),
            from + cnt <= np,
            cnt <= 16,
            codes@.len() == nb * m,
            nb <= u32::MAX,
            forall|i: int| 0 <= i < pts@.len() ==> #[trigger] pts@[i] < nb,
            slots == block_slots(pts@, from as int, cnt as int),
            slot_orig@ =~= start + slots.take(j as int),
            codes16@.len() == j,
            forall|i: int| 0 <= i < j ==> (#[trigger] codes16@[i])@.len() == m,
            forall|i: int, s: int| 0 <= i < j && 0 <= s < m ==> #[trigger] codes16@[i]@[s] == (if slots[i] == NO_POINT { 0 } else { codes@[slots[i] * m + s] }),
        decreases 16 - j,
    {
        let id: u32 = if j < cnt { pts[from + j] } else { NO_POINT };
        codes16.push(codes_of(codes, m, id, nb));
        slot_orig.push(id);
        j = j + 1;
    }
    assert(slots.take(16) =~= slots);
    pack_block(&codes16, m, blocks);
    proof {
        assert((0u8 | (0u8 << 4u8)) == 0u8) by (bit_vector);
        let want = slots_packed(codes@, m as nat, slots);
        assert forall|p: int| 0 <= p < (m / 2) * 16 implies #[trigger] packed(codes16@, m as nat)[p] == want[p] by {
            let g = p / 16;
            let i = p % 16;
            assert(codes16@[i]@[2 * g] == (if slots[i] == NO_POINT { 0 } else { codes@[slots[i] * m + 2 * g] }));
            assert(codes16@[i]@[2 * g + 1] == (if slots[i] == NO_POINT { 0 } else { codes@[slots[i] * m + (2 * g + 1)] }));
        }
        assert(packed(codes16@, m as nat) =~= want);
    }
}

proof fn lemma_pack_grows(blocks: Seq<u8>, slot_orig: Seq<u32>, bb: int, m: nat, codes: Seq<u8>, slots: Seq<u32>, nblk: int)
    requires
        packed_slots(blocks, slot_orig, bb, m, codes),
        slots.len() == 16,
        slot_orig.len() == 16 * nblk,
        blocks.len() == nblk * bb,
        bb == (m / 2) * 16,
    ensures
        packed_slots(blocks + slots_packed(codes, m, slots), slot_orig + slots, bb, m, codes),
        (blocks + slots_packed(codes, m, slots)).len() == (nblk + 1) * bb,
{
    let b2 = blocks + slots_packed(codes, m, slots);
    let s2 = slot_orig + slots;
    assert((nblk + 1) * bb == nblk * bb + bb) by (nonlinear_arith);
    assert forall|b: int, g: int, j: int|
        0 <= b && 16 * b < s2.len() && 0 <= g < m / 2 && 0 <= j < 16 implies b2[#[trigger] byte_at(b, bb, g, j)] == slot_byte(codes, m, s2[16 * b + j], g) by {
        if b < nblk {
            assert(blocks[byte_at(b, bb, g, j)] == slot_byte(codes, m, slot_orig[16 * b + j], g));
            assert(b * bb + bb <= nblk * bb) by (nonlinear_arith)
                requires
                    b + 1 <= nblk,
                    bb >= 0,
            ;
            assert(0 <= b * bb) by (nonlinear_arith)
                requires
                    0 <= b,
                    bb >= 0,
            ;
        } else {
            let p = g * 16 + j;
            assert(p / 16 == g && p % 16 == j);
        }
    }
}

/// Append the blocks of one cell.
fn pack_cell(pts: &[u32], codes: &Vec<u8>, m: usize, nb: usize, slot_orig: &mut Vec<u32>, blocks: &mut Vec<u8>, nblk: usize) -> (after: usize)
    requires
        codes@.len() == nb * m,
        nb <= u32::MAX,
        forall|i: int| 0 <= i < pts@.len() ==> #[trigger] pts@[i] < nb,
        old(slot_orig)@.len() == 16 * nblk,
        old(blocks)@.len() == nblk * ((m / 2) * 16),
        packed_slots(old(blocks)@, old(slot_orig)@, (m / 2) * 16, m as nat, codes@),
        nblk + blocks_for(pts@.len()) <= u32::MAX,
    ensures
        after == nblk + blocks_for(pts@.len()),
        final(slot_orig)@ == old(slot_orig)@ + padded(pts@),
        final(blocks)@.len() == after * ((m / 2) * 16),
        packed_slots(final(blocks)@, final(slot_orig)@, (m / 2) * 16, m as nat, codes@),
{
    let n: usize = pts.len();
    let ghost start = slot_orig@;
    let ghost bb = (m / 2) * 16;
    let ghost want = padded(pts@);
    let mut i: usize = 0;
    let mut b: usize = 0;
    assert(slot_orig@ =~= start + want.take(0));
    while i < n
        invariant
            n == pts@.len(),
            start == old(slot_orig)@,
            i == 16 * b,
            b <= blocks_for(n as nat),
            codes@.len() == nb * m,
            nb <= u32::MAX,
            bb == (m / 2) * 16,
            forall|t: int| 0 <= t < pts@.len() ==> #[trigger] pts@[t] < nb,
            want == padded(pts@),
            slot_orig@ == start + want.take(16 * b as int),
            slot_orig@.len() == 16 * (nblk + b),
            blocks@.len() == (nblk + b) * bb,
            packed_slots(blocks@, slot_orig@, bb, m as nat, codes@),
            nblk + blocks_for(n as nat) <= u32::MAX,
            n <= 16 * u32::MAX,
            n <= usize::MAX,
            i < n + 16,
        decreases n + 16 - i,
    {
        let cnt: usize = if n - i < 16 { n - i } else { 16 };
        let ghost slots = block_slots(pts@, i as int, cnt as int);
        proof {
            lemma_pack_grows(blocks@, slot_orig@, bb, m as nat, codes@, slots, nblk + b);
        }
        pack_chunk(pts, i, cnt, codes, m, nb, slot_orig, blocks);
        assert(slot_orig@ =~= start + want.take(16 * b + 16));
        b = b + 1;
        if cnt < 16 {
            assert(b == blocks_for(n as nat));
            assert(want.take(16 * b as int) =~= want);
            return nblk + b;
        }
        i = i + 16;
    }
    assert(b == blocks_for(n as nat));
    assert(want.take(16 * b as int) =~= want);
    nblk + b
}

/// Pack the codes of an inverted file's points, cell by cell; `codes` holds `m` codes for each of
/// the `nb` points.
pub fn build_pq_index(ivf: &Ivf, codes: &Vec<u8>, m: usize, nb: usize) -> (r: PqIndex)
    requires
        ivf.wf(nb as nat),
        codes@.len() == nb * m,
        nb <= u32::MAX,
        ivf.router.c < usize::MAX,
        (m / 2) * 16 <= usize::MAX,
        16 * (ivf.router.c + ivf.cells.ids@.len()) <= u32::MAX,
    ensures
        r.m == m,
        r.wf(ivf.router.c as nat, nb as nat),
        r.packs(codes@),
        r.cell_bstart@[0] == 0,
        forall|c: int| 0 <= c < ivf.router.c ==> #[trigger] slots_of(r, c) == padded(ivf.cells.of(c)),
{
    let nc: usize = ivf.router.c;
    let ghost bb = (m / 2) * 16;
    let mut blocks: Vec<u8> = Vec::new();
    let mut slot_orig: Vec<u32> = Vec::new();
    let mut cell_bstart: Vec<u32> = Vec::new();
    cell_bstart.push(0);
    let mut nblk: usize = 0;
    let mut c: usize = 0;
    assert(0 * bb == 0) by (nonlinear_arith);
    while c < nc
        invariant
            c <= nc,
            nc == ivf.router.c,
            nc < usize::MAX,
            ivf.wf(nb as nat),
            codes@.len() == nb * m,
            nb <= u32::MAX,
            bb == (m / 2) * 16,
            16 * (nc + ivf.cells.ids@.len()) <= u32::MAX,
            cell_bstart@.len() == c + 1,
            cell_bstart@[0] == 0,
            cell_bstart@[c as int] == nblk,
            nblk <= c + ivf.cells.start@[c as int],
            forall|a: int, b: int| 0 <= a <= b <= c ==> #[trigger] cell_bstart@[a] <= #[trigger] cell_bstart@[b],
            slot_orig@.len() == 16 * nblk,
            blocks@.len() == nblk * bb,
            packed_slots(blocks@, slot_orig@, bb, m as nat, codes@),
            forall|i: int| 0 <= i < slot_orig@.len() ==> #[trigger] slot_orig@[i] == NO_POINT || slot_orig@[i] < nb,
            forall|e: int| 0 <= e < c ==> #[trigger] slot_orig@.subrange(16 * cell_bstart@[e], 16 * cell_bstart@[e + 1]) == padded(ivf.cells.of(e)),
        decreases nc - c,
    {
        let ghost slots0 = slot_orig@;
        let ghost starts0 = cell_bstart@;
        assert(ivf.cells.start@[c as int] <= ivf.cells.start@[c + 1] <= ivf.cells.start@[nc as int]);
        let s: usize = ivf.cells.start[c] as usize;
        let e: usize = ivf.cells.start[c + 1] as usize;
        let pts: &[u32] = slice_subrange(ivf.cells.ids.as_slice(), s, e);
        assert(pts@ =~= ivf.cells.of(c as int));
        assert forall|i: int| 0 <= i < pts@.len() implies #[trigger] pts@[i] < nb by {
            assert(pts@[i] == ivf.cells.ids@[s + i]);
        }
        assert(blocks_for(pts@.len()) <= pts@.len() + 1);
        assert(ivf.cells.start@[c as int] >= 0);
        let ghost prev = nblk;
        nblk = pack_cell(pts, codes, m, nb, &mut slot_orig, &mut blocks, nblk);
        cell_bstart.push(nblk as u32);
        proof {
            assert forall|x: int| 0 <= x < c + 1 implies #[trigger] slot_orig@.subrange(16 * cell_bstart@[x], 16 * cell_bstart@[x + 1]) == padded(ivf.cells.of(x)) by {
                if x < c {
                    assert(starts0[x] <= starts0[x + 1] <= starts0[c as int]);
                    assert(slots0.subrange(16 * starts0[x], 16 * starts0[x + 1]) == padded(ivf.cells.of(x)));
                    assert(slot_orig@.subrange(16 * cell_bstart@[x], 16 * cell_bstart@[x + 1]) =~= slots0.subrange(16 * starts0[x], 16 * starts0[x + 1]));
                } else {
                    assert(slot_orig@.subrange(16 * prev, 16 * nblk) =~= padded(pts@));
                }
            }
            assert forall|i: int| 0 <= i < slot_orig@.len() implies #[trigger] slot_orig@[i] == NO_POINT || slot_orig@[i] < nb by {
                if i < slots0.len() {
                    assert(slot_orig@[i] == slots0[i]);
                } else {
                    assert(slot_orig@[i] == padded(pts@)[i - slots0.len()]);
                }
            }
            assert forall|a: int, b: int| 0 <= a <= b <= c + 1 implies #[trigger] cell_bstart@[a] <= #[trigger] cell_bstart@[b] by {
                if b == c + 1 && a <= c {
                    assert(starts0[a] <= starts0[c as int]);
                }
            }
        }
        c = c + 1;
    }
    PqIndex { blocks, cell_bstart, slot_orig, m, bb: m / 2 * 16 }
}

impl PqIndex {
    /// Append scores and ids of block `b`.
    fn scan_block(&self, nc: usize, nb: usize, lut: &[i8], b: usize, pool: &mut Vec<(i32, u32)>)
        requires
            self.wf(nc as nat, nb as nat),
            (self.m / 2) * 32 <= lut@.len(),
            b < self.cell_bstart@[nc as int],
        ensures
            final(pool)@ == old(pool)@ + lanes(*self, lut@, b as int, 16),
    {
        let ghost start = pool@;
        let total: usize = self.blocks.len();
        let slots: usize = self.slot_orig.len();
        proof {
            lemma_row_in_range(b as int, self.bb as int, self.cell_bstart@[nc as int] as int, total as int);
        }
        let block: &[u8] = slice_subrange(self.blocks.as_slice(), b * self.bb, b * self.bb + self.bb);
        let mut out16: [i8; 16] = [0; 16];
        block_adc_sse(block, self.m, lut, &mut out16);
        let mut i: usize = 0;
        assert(pool@ =~= start + lanes(*self, lut@, b as int, 0));
        while i < 16
            invariant
                i <= 16,
                slots == self.slot_orig@.len(),
                16 * b + 16 <= slots,
                block@ == self.blocks@.subrange(b * self.bb, b * self.bb + self.bb),
                forall|j: int| 0 <= j < 16 ==> #[trigger] out16@[j] == adc_saturating(lut@, block@, j as nat, (self.m / 2) as nat),
                pool@ == start + lanes(*self, lut@, b as int, i as nat),
            decreases 16 - i,
        {
            let id: u32 = self.slot_orig[b * 16 + i];
            let ghost before = lanes(*self, lut@, b as int, i as nat);
            assert(16 * b + (i + 1) - 1 == b * 16 + i);
            if id != NO_POINT {
                pool.push((out16[i] as i32, id));
                assert(pool@ =~= start + before.push((out16@[i as int] as i32, id)));
            }
            i = i + 1;
        }
    }

    /// Scan the probed cells, keep the `t` best candidates, rank them by exact distance and return the
    /// first `k` distinct ids.
    pub fn search(&self, nc: usize, lut: &[i8], ds: &I8Bin<'_>, q: &[i8], cells: &Vec<u32>, t: usize, k: usize) -> (r: Vec<u32>)
        requires
            self.wf(nc as nat, ds.nb as nat),
            ds.wf(),
            ds.d <= L2_DIM,
            q@.len() == ds.d,
            (self.m / 2) * 32 <= lut@.len(),
            forall|i: int| 0 <= i < cells@.len() ==> #[trigger] cells@[i] < nc,
        ensures
            r@ == self.found(lut@, ds.data@, ds.d as nat, q@, cells@, t as nat, k as nat),
    {
        let mut pool: Vec<(i32, u32)> = Vec::new();
        let n: usize = cells.len();
        let ghost f = self.cell_lanes(lut@);
        let mut i: usize = 0;
        assert(cells@.take(0) =~= Seq::<u32>::empty());
        while i < n
            invariant
                i <= n,
                n == cells@.len(),
                self.wf(nc as nat, ds.nb as nat),
                (self.m / 2) * 32 <= lut@.len(),
                f == self.cell_lanes(lut@),
                forall|j: int| 0 <= j < n ==> #[trigger] cells@[j] < nc,
                pool@ == gathered(f, cells@.take(i as int)),
            decreases n - i,
        {
            assert(cells@.take(i + 1).drop_last() =~= cells@.take(i as int));
            assert(cells@.take(i + 1).last() == cells@[i as int]);
            let c: usize = cells[i] as usize;
            let ghost before = pool@;
            assert(self.cell_bstart@[c as int] <= self.cell_bstart@[c + 1] <= self.cell_bstart@[nc as int]);
            let bs: usize = self.cell_bstart[c] as usize;
            let be: usize = self.cell_bstart[c + 1] as usize;
            let mut b: usize = bs;
            assert(pool@ =~= before + block_lanes(*self, lut@, bs as int, bs as int));
            while b < be
                invariant
                    bs <= b <= be,
                    be <= self.cell_bstart@[nc as int],
                    self.wf(nc as nat, ds.nb as nat),
                    (self.m / 2) * 32 <= lut@.len(),
                    pool@ == before + block_lanes(*self, lut@, bs as int, b as int),
                decreases be - b,
            {
                self.scan_block(nc, ds.nb, lut, b, &mut pool);
                assert(pool@ =~= before + block_lanes(*self, lut@, bs as int, b + 1));
                b = b + 1;
            }
            i = i + 1;
        }
        assert(cells@.take(n as int) =~= cells@);
        let ghost all = pool@;
        proof {
            self.lemma_ids_below(nc as nat, ds.nb as nat, lut@, cells@);
            if t > 0 {
                crate::order::lemma_smallest(all, t as nat);
            }
        }
        if t > 0 {
            keep_smallest(&mut pool, t);
        }
        assert forall|j: int| 0 <= j < pool@.len() implies (#[trigger] pool@[j]).1 < ds.nb by {
            assert(all.contains(pool@[j]));
            let x = choose|x: int| 0 <= x < all.len() && all[x] == pool@[j];
            assert(all[x].1 < ds.nb);
        }
        let ghost kept = pool@;
        let ghost want = rescored_ids(kept, ds.data@, ds.d as nat, q@);
        let mut cand: Vec<(i32, u32)> = Vec::new();
        let np: usize = pool.len();
        let mut j: usize = 0;
        while j < np
            invariant
                j <= np,
                np == pool@.len(),
                pool@ == kept,
                ds.wf(),
                ds.d <= L2_DIM,
                q@.len() == ds.d,
                want == rescored_ids(kept, ds.data@, ds.d as nat, q@),
                forall|x: int| 0 <= x < np ==> (#[trigger] pool@[x]).1 < ds.nb,
                cand@.len() == j,
                forall|x: int| 0 <= x < j ==> #[trigger] cand@[x] == want[x],
            decreases np - j,
        {
            let id: u32 = pool[j].1;
            assert(pool@[j as int].1 < ds.nb);
            let dist: i32 = l2_i8(q, ds.row(id as usize));
            cand.push((dist, id));
            j = j + 1;
        }
        assert(cand@ =~= want);
        topk_dedup(cand, k)
    }

    proof fn lemma_lane_ids(&self, nc: nat, nb: nat, lut: Seq<i8>, b: int, n: nat)
        requires
            self.wf(nc, nb),
            0 <= b < self.cell_bstart@[nc as int],
            n <= 16,
        ensures
            forall|i: int| 0 <= i < lanes(*self, lut, b, n).len() ==> (#[trigger] lanes(*self, lut, b, n)[i]).1 < nb,
        decreases n,
    {
        if n > 0 {
            self.lemma_lane_ids(nc, nb, lut, b, (n - 1) as nat);
            let before = lanes(*self, lut, b, (n - 1) as nat);
            let after = lanes(*self, lut, b, n);
            assert forall|i: int| 0 <= i < after.len() implies (#[trigger] after[i]).1 < nb by {
                if i < before.len() {
                    assert(after[i] == before[i]);
                }
            }
        }
    }

    proof fn lemma_block_ids(&self, nc: nat, nb: nat, lut: Seq<i8>, from: int, to: int)
        requires
            self.wf(nc, nb),
            0 <= from,
            to <= self.cell_bstart@[nc as int],
        ensures
            forall|i: int| 0 <= i < block_lanes(*self, lut, from, to).len() ==> (#[trigger] block_lanes(*self, lut, from, to)[i]).1 < nb,
        decreases to - from,
    {
        if to > from {
            self.lemma_block_ids(nc, nb, lut, from, to - 1);
            self.lemma_lane_ids(nc, nb, lut, to - 1, 16);
            let before = block_lanes(*self, lut, from, to - 1);
            let after = block_lanes(*self, lut, from, to);
            let last = lanes(*self, lut, to - 1, 16);
            assert forall|i: int| 0 <= i < after.len() implies (#[trigger] after[i]).1 < nb by {
                if i < before.len() {
                    assert(after[i] == before[i]);
                } else {
                    assert(after[i] == last[i - before.len()]);
                }
            }
        }
    }

    proof fn lemma_ids_below(&self, nc: nat, nb: nat, lut: Seq<i8>, cells: Seq<u32>)
        requires
            self.wf(nc, nb),
            forall|i: int| 0 <= i < cells.len() ==> #[trigger] cells[i] < nc,
        ensures
            forall|i: int| 0 <= i < gathered(self.cell_lanes(lut), cells).len() ==> (#[trigger] gathered(self.cell_lanes(lut), cells)[i]).1 < nb,
        decreases cells.len(),
    {
        if cells.len() > 0 {
            let f = self.cell_lanes(lut);
            let rest = cells.drop_last();
            assert forall|i: int| 0 <= i < rest.len() implies #[trigger] rest[i] < nc by {
                assert(rest[i] == cells[i]);
            }
            self.lemma_ids_below(nc, nb, lut, rest);
            let c = cells.last();
            assert(cells[cells.len() - 1] < nc);
            assert(self.cell_bstart@[c as int] <= self.cell_bstart@[c + 1] <= self.cell_bstart@[nc as int]);
            self.lemma_block_ids(nc, nb, lut, self.cell_bstart@[c as int] as int, self.cell_bstart@[c + 1] as int);
            let before = gathered(f, rest);
            let after = gathered(f, cells);
            assert forall|i: int| 0 <= i < after.len() implies (#[trigger] after[i]).1 < nb by {
                if i < before.len() {
                    assert(after[i] == before[i]);
                } else {
                    assert(after[i] == f(c)[i - before.len()]);
                }
            }
        }
    }
}

} // verus!
