//! What a scan finds and what is kept of it: the candidates of the probed cells, their scores, and those
//! of the lowest.

use crate::chosen::lemma_code_sum_bound;
use crate::compress::{Compressor, QueryCtx};
use crate::floatrank::{GraphStep, NarrowKnobs};
use crate::fused::lane_pool;
use crate::graph::{graph_survivors, UnionRows};
use crate::hier::{code_sum, lemma_block_is_code_sum};
use crate::index::{Index, ScanKnobs};
use crate::layout::block_at;
use crate::live::{ins_lanes, lemma_gathered_has};
use crate::order::{ascending, law_smallest_keeps_the_lowest, lemma_ascending, lemma_smallest, lemma_smallest_all, smallest};
use crate::pq::{adc_i16, adc_i8, adc_to_low_half, law_saturation_is_idle_in_range};
use crate::refine::{cascaded, int8_scored, order_key};
use crate::rerank::{deduped, law_dedup_keeps_the_best_of_each_point, lemma_pool_pass, lists, pool_pass, slots_exist, NO_POINT};
use crate::router::Router;
use crate::scan::{gathered, lemma_gathered_ignores_order};
use crate::simd::{dot, inner, l2, lemma_inner_bound, lemma_sqdist_bound, row_of, DOT_DIM, L2_DIM};
use vstd::prelude::*;

verus! {

/// `kept` are the `t` lowest of a pool, lowest first; all of it where there are fewer.
pub open spec fn keeps_lowest(pool: Seq<(i32, u32)>, t: nat, kept: Seq<(i32, u32)>) -> bool {
    &&& kept.len() == (if t < pool.len() { t } else { pool.len() })
    &&& forall|i: int| 0 <= i < kept.len() ==> pool.contains(#[trigger] kept[i])
    &&& forall|i: int, j: int| 0 <= i <= j < kept.len() ==> (#[trigger] kept[i]).0 <= (#[trigger] kept[j]).0
    &&& forall|i: int, e: (i32, u32)| #[trigger] pool.contains(e) && !kept.contains(e) && 0 <= i < kept.len() ==> (#[trigger] kept[i]).0 <= e.0
}

pub proof fn lemma_keeps(pool: Seq<(i32, u32)>, t: nat)
    ensures
        keeps_lowest(pool, t, smallest(pool, t)),
{
    lemma_smallest(pool, t);
    law_smallest_keeps_the_lowest(pool, t);
    let kept = smallest(pool, t);
    assert forall|i: int, e: (i32, u32)| #[trigger] pool.contains(e) && !kept.contains(e) && 0 <= i < kept.len() implies (#[trigger] kept[i]).0 <= e.0 by {
        let j = choose|j: int| 0 <= j < pool.len() && pool[j] == e;
        assert(!kept.contains(pool[j]));
    }
}

// ---------------------------------------------------------------- candidates

/// Candidates of one cell come from its slots.
proof fn lemma_lanes_hold(out: Seq<i32>, base: nat, slot_orig: Seq<u32>, n: nat, s: i32, slot: u32)
    requires
        base + n <= u32::MAX,
    ensures
        lane_pool(out, base, slot_orig, n).contains((s, slot)) <==> base <= slot < base + n && slot_orig[slot as int] != NO_POINT && s == out[slot - base],
    decreases n,
{
    let all = lane_pool(out, base, slot_orig, n);
    if n > 0 {
        lemma_lanes_hold(out, base, slot_orig, (n - 1) as nat, s, slot);
        let prev = lane_pool(out, base, slot_orig, (n - 1) as nat);
        if slot_orig[base + n - 1] != NO_POINT {
            let last = (out[n - 1], (base + n - 1) as u32);
            assert(all == prev.push(last));
            if prev.contains((s, slot)) {
                let i = choose|i: int| 0 <= i < prev.len() && prev[i] == (s, slot);
                assert(all[i] == (s, slot));
            }
            if last == (s, slot) {
                assert(all[prev.len() as int] == last);
            }
            if all.contains((s, slot)) {
                let i = choose|i: int| 0 <= i < all.len() && all[i] == (s, slot);
                if i < prev.len() {
                    assert(prev[i] == (s, slot));
                }
            }
        }
    }
}

/// Candidates of a list of cells come from its cells.
pub proof fn lemma_gathered_from(f: spec_fn(u32) -> Seq<(i32, u32)>, cells: Seq<u32>, e: (i32, u32))
    ensures
        gathered(f, cells).contains(e) <==> exists|i: int| 0 <= i < cells.len() && f(#[trigger] cells[i]).contains(e),
    decreases cells.len(),
{
    if cells.len() > 0 {
        let rest = cells.drop_last();
        let n = rest.len() as int;
        lemma_gathered_from(f, rest, e);
        let a = gathered(f, rest);
        let b = f(cells.last());
        if gathered(f, cells).contains(e) {
            let k = choose|k: int| 0 <= k < (a + b).len() && (a + b)[k] == e;
            if k < a.len() {
                assert(a[k] == e);
                let i = choose|i: int| 0 <= i < rest.len() && f(#[trigger] rest[i]).contains(e);
                assert(f(cells[i]).contains(e));
            } else {
                assert(b[k - a.len()] == e);
                assert(f(cells[n]).contains(e));
            }
        }
        if exists|i: int| 0 <= i < cells.len() && f(#[trigger] cells[i]).contains(e) {
            let i = choose|i: int| 0 <= i < cells.len() && f(#[trigger] cells[i]).contains(e);
            assert(cells.contains(cells[i]));
            lemma_gathered_has(f, cells, cells[i], e);
        }
    }
}

/// The slot belongs to the cell and holds a point.
pub open spec fn holds_point<R: Router, C: Compressor>(ix: &Index<R, C>, c: u32, slot: u32) -> bool {
    16 * ix.cell_bstart@[c as int] <= slot < 16 * ix.cell_bstart@[c + 1] && ix.slot_orig@[slot as int] != NO_POINT
}

/// What the compressor takes off the scores of a cell; nothing without centroids.
pub open spec fn taken_off<R: Router, C: Compressor>(ix: &Index<R, C>, ctx: QueryCtx, q: Seq<i8>, c: u32) -> int {
    if ix.rq_cent@.len() == 0 {
        0
    } else {
        match ix.comp.cell_offset(ctx, dot(q, row_of(ix.rq_cent@, ix.d as nat, c as int))) {
            Some(off) => off as int,
            None => 0,
        }
    }
}

/// The candidates of a scan are the slots of its cells that hold a point, each with its score in its
/// block. Where cells carry offsets, that of the slot's cell is taken off, in 32-bit arithmetic.
pub proof fn law_candidates_are_the_held_slots<R: Router, C: Compressor>(ix: &Index<R, C>, ctx: QueryCtx, q: Seq<i8>, data: Seq<i8>, cells: Seq<u32>, s: i32, slot: u32)
    requires
        ix.main_ok(),
        ix.cells_exist(cells),
    ensures
        ix.plain_pool(ctx, q, data, cells).contains((s, slot)) <==> s == ix.scores(ctx, q, data, slot as int / 16)[slot as int % 16] && exists|i: int| 0 <= i < cells.len() && holds_point(ix, #[trigger] cells[i], slot),
        ix.pool_of(ctx, q, data, cells).contains((s, slot)) ==> exists|i: int|
            0 <= i < cells.len() && holds_point(ix, #[trigger] cells[i], slot) && (ix.scores(ctx, q, data, slot as int / 16)[slot as int % 16] - taken_off(ix, ctx, q, cells[i]) - s) % 0x1_0000_0000 == 0,
        forall|i: int| 0 <= i < cells.len() && holds_point(ix, #[trigger] cells[i], slot) && s == ix.scores(ctx, q, data, slot as int / 16)[slot as int % 16] - taken_off(ix, ctx, q, cells[i]) ==> ix.pool_of(ctx, q, data, cells).contains((s, slot)),
{
    let f = ix.plain_lanes(ctx, q, data);
    let g = ix.shifted_lanes(ctx, q, data);
    let raw = ix.scores(ctx, q, data, slot as int / 16)[slot as int % 16];
    lemma_gathered_from(f, cells, (s, slot));
    lemma_gathered_from(g, cells, (s, slot));
    assert forall|i: int| 0 <= i < cells.len() implies (f(#[trigger] cells[i]).contains((s, slot)) <==> s == raw && holds_point(ix, cells[i], slot)) by {
        lemma_cell_candidates(ix, ctx, q, data, cells[i], s, slot);
    }
    assert forall|i: int| 0 <= i < cells.len() && g(#[trigger] cells[i]).contains((s, slot)) implies holds_point(ix, cells[i], slot) && (raw - taken_off(ix, ctx, q, cells[i]) - s) % 0x1_0000_0000 == 0 by {
        let p = f(cells[i]);
        let h = g(cells[i]);
        let k = choose|k: int| 0 <= k < h.len() && h[k] == (s, slot);
        assert(p.contains(p[k]));
        lemma_cell_candidates(ix, ctx, q, data, cells[i], p[k].0, slot);
    }
    assert forall|i: int| 0 <= i < cells.len() && holds_point(ix, #[trigger] cells[i], slot) && s == raw - taken_off(ix, ctx, q, cells[i]) implies ix.pool_of(ctx, q, data, cells).contains((s, slot)) by {
        lemma_cell_candidates(ix, ctx, q, data, cells[i], raw, slot);
        let p = f(cells[i]);
        let k = choose|k: int| 0 <= k < p.len() && p[k] == (raw, slot);
        assert(g(cells[i])[k] == (s, slot));
        assert(g(cells[i]).contains((s, slot)));
    }
}

proof fn lemma_cell_candidates<R: Router, C: Compressor>(ix: &Index<R, C>, ctx: QueryCtx, q: Seq<i8>, data: Seq<i8>, c: u32, s: i32, slot: u32)
    requires
        ix.main_ok(),
        c < ix.nc(),
    ensures
        ix.plain_lanes(ctx, q, data)(c).contains((s, slot)) <==> s == ix.scores(ctx, q, data, slot as int / 16)[slot as int % 16] && holds_point(ix, c, slot),
{
    let b = ix.cell_bstart@;
    let base = (16 * b[c as int]) as nat;
    assert(b[c as int] <= b[c + 1] <= b[ix.nc() as int]);
    let n = (16 * (b[c + 1] - b[c as int])) as nat;
    let out = ix.cell_scores(ctx, q, data, c as int);
    lemma_lanes_hold(out, base, ix.slot_orig@, n, s, slot);
    if base <= slot < base + n {
        let i = slot - base;
        assert(out[i] == ix.scores(ctx, q, data, b[c as int] + i / 16)[i % 16]);
    }
}

/// An exact scan scores a point by its squared distance.
pub proof fn law_exact_scan_scores_by_distance<R: Router, C: Compressor>(ix: &Index<R, C>, q: Seq<i8>, data: Seq<i8>, slot: u32)
    requires
        ix.main_ok(),
        q.len() == ix.d,
        slot < ix.slot_orig@.len(),
        ix.slot_orig@[slot as int] != NO_POINT,
        (ix.slot_orig@[slot as int] + 1) * ix.d <= data.len(),
    ensures
        ix.scores(QueryCtx::Scalar, q, data, slot as int / 16)[slot as int % 16] == l2(q, row_of(data, ix.d as nat, ix.slot_orig@[slot as int] as int)),
{
    let o = ix.slot_orig@[slot as int] as int;
    let d = ix.d as int;
    assert(0 <= o * d && o * d + d == (o + 1) * d) by (nonlinear_arith)
        requires
            0 <= o,
            0 <= d,
    ;
    assert(16 * (slot as int / 16) + slot as int % 16 == slot);
    lemma_sqdist_bound(q, row_of(data, ix.d as nat, o), ix.d as nat);
}

/// A scan from codes scores a point by the sum of the table entries that its codes select. The byte of
/// group `g` in the lane of a slot holds the codes of the subspaces `2 g` and `2 g + 1`.
pub proof fn law_coded_scan_sums_the_table<R: Router, C: Compressor>(ix: &Index<R, C>, lut: Vec<i8>, ctx: QueryCtx, q: Seq<i8>, data: Seq<i8>, slot: u32, codes: Seq<u8>, base: int)
    requires
        ctx matches QueryCtx::Pq8 { lut: t, .. } && t == lut,
        ix.comp.subspaces() % 2 == 0,
        ix.comp.subspaces() <= 65534,
        forall|g: int|
            0 <= g < ix.comp.subspaces() / 2 ==> (#[trigger] block_at(ix.blocks@, ix.bb as nat, slot as int / 16)[g * 16 + slot as int % 16]) % 16 == codes[base + 2 * g] && block_at(ix.blocks@, ix.bb as nat, slot as int / 16)[g * 16 + slot as int % 16] / 16 == codes[base + 2 * g + 1],
    ensures
        ix.scores(ctx, q, data, slot as int / 16)[slot as int % 16] == code_sum(lut@, codes, base, ix.comp.subspaces()),
{
    let m = ix.comp.subspaces();
    let block = block_at(ix.blocks@, ix.bb as nat, slot as int / 16);
    lemma_block_is_code_sum(lut@, block, (slot as int % 16) as nat, codes, base, m / 2);
    lemma_code_sum_bound(lut@, codes, base, m);
}

/// Sum of the wide table entries that `n` codes from `base` on select.
pub open spec fn wide_sum(lut: Seq<i16>, codes: Seq<u8>, base: int, n: nat) -> int
    decreases n,
{
    if n == 0 {
        0
    } else {
        wide_sum(lut, codes, base, (n - 1) as nat) + lut[16 * (n - 1) + codes[base + n - 1]]
    }
}

proof fn lemma_wide_sum(lut: Seq<i16>, bytes: Seq<u8>, i: nat, codes: Seq<u8>, base: int, n: nat)
    requires
        forall|g: int| 0 <= g < n ==> (#[trigger] bytes[g * 16 + i]) % 16 == codes[base + 2 * g] && bytes[g * 16 + i] / 16 == codes[base + 2 * g + 1],
    ensures
        adc_i16(lut, bytes, 16, i, n) == wide_sum(lut, codes, base, 2 * n),
        -65536 * n <= adc_i16(lut, bytes, 16, i, n) <= 65536 * n,
    decreases n,
{
    if n > 0 {
        lemma_wide_sum(lut, bytes, i, codes, base, (n - 1) as nat);
        let g = n - 1;
        assert(bytes[g * 16 + i] % 16 == codes[base + 2 * g]);
        reveal_with_fuel(wide_sum, 3);
        assert(bytes[g * 16nat + i] == bytes[g * 16 + i]);
    }
}

/// A scan with a wide table sums its entries in the same way.
pub proof fn law_wide_coded_scan_sums_the_table<R: Router, C: Compressor>(ix: &Index<R, C>, lut: Vec<i16>, ctx: QueryCtx, q: Seq<i8>, data: Seq<i8>, slot: u32, codes: Seq<u8>, base: int)
    requires
        ctx matches QueryCtx::Pq16 { lut16: t, .. } && t == lut,
        ix.comp.subspaces() % 2 == 0,
        ix.comp.subspaces() <= 65534,
        forall|g: int|
            0 <= g < ix.comp.subspaces() / 2 ==> (#[trigger] block_at(ix.blocks@, ix.bb as nat, slot as int / 16)[g * 16 + slot as int % 16]) % 16 == codes[base + 2 * g] && block_at(ix.blocks@, ix.bb as nat, slot as int / 16)[g * 16 + slot as int % 16] / 16 == codes[base + 2 * g + 1],
    ensures
        ix.scores(ctx, q, data, slot as int / 16)[slot as int % 16] == wide_sum(lut@, codes, base, ix.comp.subspaces()),
{
    let m = ix.comp.subspaces();
    let block = block_at(ix.blocks@, ix.bb as nat, slot as int / 16);
    lemma_wide_sum(lut@, block, (slot as int % 16) as nat, codes, base, m / 2);
}

/// A scan with a saturating table sums its entries in the same way, where no sum on the way leaves the
/// range of a byte.
pub proof fn law_saturating_scan_sums_the_table<R: Router, C: Compressor>(ix: &Index<R, C>, lut: Vec<i8>, ctx: QueryCtx, q: Seq<i8>, data: Seq<i8>, slot: u32, codes: Seq<u8>, base: int)
    requires
        ctx matches QueryCtx::Pq { lut: t } && t == lut,
        ix.comp.subspaces() % 2 == 0,
        forall|g: int|
            0 <= g < ix.comp.subspaces() / 2 ==> (#[trigger] block_at(ix.blocks@, ix.bb as nat, slot as int / 16)[g * 16 + slot as int % 16]) % 16 == codes[base + 2 * g] && block_at(ix.blocks@, ix.bb as nat, slot as int / 16)[g * 16 + slot as int % 16] / 16 == codes[base + 2 * g + 1],
        forall|n: nat| n <= ix.comp.subspaces() ==> -128 <= #[trigger] code_sum(lut@, codes, base, n) <= 127,
    ensures
        ix.scores(ctx, q, data, slot as int / 16)[slot as int % 16] == code_sum(lut@, codes, base, ix.comp.subspaces()),
{
    let m = ix.comp.subspaces();
    let lane = (slot as int % 16) as nat;
    let block = block_at(ix.blocks@, ix.bb as nat, slot as int / 16);
    assert forall|g: nat| g <= m / 2 implies -128 <= #[trigger] adc_i8(lut@, block, 16, lane, g) <= 127 by {
        lemma_block_is_code_sum(lut@, block, lane, codes, base, g);
        assert(-128 <= code_sum(lut@, codes, base, 2 * g) <= 127);
    }
    assert forall|g: nat| g < m / 2 implies -128 <= #[trigger] adc_to_low_half(lut@, block, lane, g) <= 127 by {
        lemma_block_is_code_sum(lut@, block, lane, codes, base, g);
        assert(block[g as int * 16 + slot as int % 16] % 16 == codes[base + 2 * g]);
        assert(code_sum(lut@, codes, base, 2 * g + 1) == code_sum(lut@, codes, base, 2 * g) + lut@[16 * (2 * g) + codes[base + 2 * g]]);
        assert(-128 <= code_sum(lut@, codes, base, 2 * g + 1) <= 127);
    }
    law_saturation_is_idle_in_range(lut@, block, lane, m / 2);
    lemma_block_is_code_sum(lut@, block, lane, codes, base, m / 2);
    assert(-128 <= code_sum(lut@, codes, base, m) <= 127);
}

proof fn lemma_appended_lanes(scores: Seq<i32>, gidx: Seq<u32>, orig: Seq<u32>, n: nat, e: (i32, u32))
    ensures
        ins_lanes(scores, gidx, orig, n).contains(e) <==> exists|i: int| 0 <= i < n && #[trigger] gidx[i] == e.1 && scores[i] == e.0 && orig[gidx[i] as int] != NO_POINT,
    decreases n,
{
    let all = ins_lanes(scores, gidx, orig, n);
    if n > 0 {
        let m = n - 1;
        lemma_appended_lanes(scores, gidx, orig, m as nat, e);
        let prev = ins_lanes(scores, gidx, orig, m as nat);
        if prev.contains(e) {
            let x = choose|x: int| 0 <= x < prev.len() && prev[x] == e;
            assert(all[x] == e);
        }
        if orig[gidx[m] as int] != NO_POINT {
            assert(all[prev.len() as int] == (scores[m], gidx[m]));
            if all.contains(e) {
                let x = choose|x: int| 0 <= x < all.len() && all[x] == e;
                if x < prev.len() {
                    assert(prev[x] == e);
                } else {
                    assert(gidx[m] == e.1);
                }
            }
        }
    }
}

/// The candidates of the append buffer are the appended points of the probed cells that are not deleted.
/// Where rows are scanned, or nothing is encoded, each is scored by its squared distance.
pub proof fn law_appended_candidates_are_the_live_ones<R: Router, C: Compressor>(ix: &Index<R, C>, ctx: QueryCtx, q: Seq<i8>, cells: Seq<u32>, s: i32, g: u32)
    requires
        q.len() <= L2_DIM,
        ix.comp.raw_rows() || ix.bb == 0,
    ensures
        ix.ins_pool(ctx, q, cells).contains((s, g)) <==> s == l2(q, row_of(ix.ins_raw@, ix.d as nat, g as int)) && ix.ins_orig@[g as int] != NO_POINT && exists|i: int| 0 <= i < cells.len() && ix.ins_gidx@[#[trigger] cells[i] as int]@.contains(g),
{
    let f = ix.ins_cell_pool(ctx, q);
    let e = (s, g);
    lemma_gathered_from(f, cells, e);
    lemma_sqdist_bound(q, row_of(ix.ins_raw@, ix.d as nat, g as int), q.len());
    assert forall|i: int| 0 <= i < cells.len() implies (f(#[trigger] cells[i]).contains(e) <==> s == l2(q, row_of(ix.ins_raw@, ix.d as nat, g as int)) && ix.ins_orig@[g as int] != NO_POINT && ix.ins_gidx@[cells[i] as int]@.contains(g)) by {
        let c = cells[i] as int;
        let gidx = ix.ins_gidx@[c]@;
        lemma_appended_lanes(ix.ins_scores(ctx, q, c), gidx, ix.ins_orig@, gidx.len(), e);
        if s == l2(q, row_of(ix.ins_raw@, ix.d as nat, g as int)) && ix.ins_orig@[g as int] != NO_POINT && gidx.contains(g) {
            let x = choose|x: int| 0 <= x < gidx.len() && gidx[x] == g;
            assert(gidx[x] == e.1);
        }
    }
}

/// An appended point that is encoded is scored like a built one, by the sum of the table entries that the
/// codes in its lane select.
pub proof fn law_appended_codes_sum_the_table<R: Router, C: Compressor>(ix: &Index<R, C>, lut: Vec<i8>, ctx: QueryCtx, q: Seq<i8>, c: int, k: int, codes: Seq<u8>, base: int)
    requires
        ctx matches QueryCtx::Pq8 { lut: t, .. } && t == lut,
        !ix.comp.raw_rows(),
        ix.bb > 0,
        0 <= k < ix.ins_gidx@[c]@.len(),
        ix.comp.subspaces() % 2 == 0,
        ix.comp.subspaces() <= 65534,
        forall|g: int|
            0 <= g < ix.comp.subspaces() / 2 ==> (#[trigger] block_at(ix.ins_blocks@[c]@, ix.bb as nat, k / 16)[g * 16 + k % 16]) % 16 == codes[base + 2 * g] && block_at(ix.ins_blocks@[c]@, ix.bb as nat, k / 16)[g * 16 + k % 16] / 16 == codes[base + 2 * g + 1],
    ensures
        ix.ins_scores(ctx, q, c)[k] == code_sum(lut@, codes, base, ix.comp.subspaces()),
{
    let m = ix.comp.subspaces();
    let block = block_at(ix.ins_blocks@[c]@, ix.bb as nat, k / 16);
    lemma_block_is_code_sum(lut@, block, (k % 16) as nat, codes, base, m / 2);
    lemma_code_sum_bound(lut@, codes, base, m);
}

// ---------------------------------------------------------------- survivors

proof fn lemma_visit_order(f: spec_fn(u32) -> Seq<(i32, u32)>, cells: Seq<u32>, sort: bool)
    ensures
        ({
            let v = if sort {
                ascending(cells)
            } else {
                cells
            };
            gathered(f, v).to_multiset() == gathered(f, cells).to_multiset()
        }),
{
    lemma_ascending(cells);
    lemma_gathered_ignores_order(f, ascending(cells), cells);
}

proof fn lemma_same_members(a: Seq<(i32, u32)>, b: Seq<(i32, u32)>)
    requires
        a.to_multiset() == b.to_multiset(),
    ensures
        a.len() == b.len(),
        forall|e: (i32, u32)| #[trigger] a.contains(e) ==> b.contains(e),
        forall|e: (i32, u32)| #[trigger] b.contains(e) ==> a.contains(e),
{
    broadcast use vstd::seq_lib::group_to_multiset_ensures;

    assert(a.to_multiset().len() == a.len());
    assert(b.to_multiset().len() == b.len());
    assert forall|e: (i32, u32)| #[trigger] a.contains(e) <==> b.contains(e) by {
        assert(a.contains(e) <==> a.to_multiset().contains(e));
        assert(b.contains(e) <==> b.to_multiset().contains(e));
    }
}

/// Where points are not reduced to one candidate each, the candidates of the `t` lowest scores survive;
/// without a cap all of them do. Candidates that are collected while scanning keep their offsets.
pub proof fn law_lowest_candidates_survive<R: Router, C: Compressor>(ix: &Index<R, C>, ctx: QueryCtx, q: Seq<i8>, data: Seq<i8>, cells: Seq<u32>, t: nat, knobs: ScanKnobs)
    requires
        ix.a0 < knobs.dedup_a0,
        !knobs.pool_dedup,
    ensures
        knobs.fused && !(knobs.residq && ix.rq_cent@.len() > 0) ==> keeps_lowest(ix.plain_pool(ctx, q, data, cells), t, ix.survivors_of(ctx, q, data, cells, t, knobs)),
        !(knobs.fused && !(knobs.residq && ix.rq_cent@.len() > 0)) && t > 0 ==> keeps_lowest(ix.pool_of(ctx, q, data, cells), t, ix.survivors_of(ctx, q, data, cells, t, knobs)),
        !(knobs.fused && !(knobs.residq && ix.rq_cent@.len() > 0)) && t == 0 ==> ix.survivors_of(ctx, q, data, cells, t, knobs).to_multiset() == ix.pool_of(ctx, q, data, cells).to_multiset(),
{
    let f = if ix.fuses(knobs) {
        ix.plain_lanes(ctx, q, data)
    } else {
        ix.shifted_lanes(ctx, q, data)
    };
    let v = if knobs.sort_cells {
        ascending(cells)
    } else {
        cells
    };
    lemma_visit_order(f, cells, knobs.sort_cells);
    lemma_same_members(gathered(f, v), gathered(f, cells));
    lemma_keeps(gathered(f, v), t);
}

/// The pool has a candidate for the point of a slot.
pub open spec fn stands_for(pool: Seq<(i32, u32)>, slot_orig: Seq<u32>, o: u32) -> bool {
    exists|i: int| 0 <= i < pool.len() && slot_orig[(#[trigger] pool[i]).1 as int] == o
}

/// `r` has one entry of a pool for each of the points of the `t` lowest entries, the lowest of its point;
/// `t == 0` takes all points.
pub open spec fn lowest_points(all: Seq<(i32, u32)>, orig: Seq<u32>, t: nat, r: Seq<(i32, u32)>) -> bool {
    &&& forall|i: int| 0 <= i < r.len() ==> all.contains(#[trigger] r[i])
    &&& forall|i: int, j: int| 0 <= i < j < r.len() ==> orig[(#[trigger] r[i]).1 as int] != orig[(#[trigger] r[j]).1 as int]
    &&& forall|i: int, e: (i32, u32)| 0 <= i < r.len() && #[trigger] all.contains(e) && orig[e.1 as int] == orig[(#[trigger] r[i]).1 as int] ==> r[i].0 <= e.0
    &&& t > 0 ==> r.len() <= t && forall|i: int, j: int| 0 <= i <= j < r.len() ==> (#[trigger] r[i]).0 <= (#[trigger] r[j]).0
    &&& forall|e: (i32, u32)| #[trigger] all.contains(e) && !stands_for(r, orig, orig[e.1 as int]) ==> t > 0 && r.len() == t
    &&& forall|e: (i32, u32), i: int| #[trigger] all.contains(e) && !stands_for(r, orig, orig[e.1 as int]) && 0 <= i < r.len() ==> (#[trigger] r[i]).0 <= e.0
}

/// Where points are reduced to one candidate each, every point stands with its lowest score, and the
/// points of the `t` lowest survive; without a cap all of them do.
pub proof fn law_lowest_points_survive<R: Router, C: Compressor>(ix: &Index<R, C>, ctx: QueryCtx, q: Seq<i8>, data: Seq<i8>, cells: Seq<u32>, t: nat, knobs: ScanKnobs)
    requires
        ix.main_ok(),
        ix.cells_exist(cells),
        ix.a0 >= knobs.dedup_a0 || knobs.pool_dedup,
    ensures
        lowest_points(ix.pool_of(ctx, q, data, cells), ix.slot_orig@, t, ix.survivors_of(ctx, q, data, cells, t, knobs)),
{
    let f = ix.shifted_lanes(ctx, q, data);
    let all = ix.pool_of(ctx, q, data, cells);
    let orig = ix.slot_orig@;
    let v = if knobs.sort_cells {
        ascending(cells)
    } else {
        cells
    };
    let pool = gathered(f, v);
    lemma_visit_order(f, cells, knobs.sort_cells);
    lemma_same_members(pool, all);
    ix.lemma_pool_live(ctx, q, data, cells);
    assert forall|i: int| 0 <= i < pool.len() implies (#[trigger] pool[i]).1 < orig.len() && orig[pool[i].1 as int] != NO_POINT by {
        assert(pool.contains(pool[i]));
        assert(all.contains(pool[i]));
        let x = choose|x: int| 0 <= x < all.len() && all[x] == pool[i];
        assert(all[x].1 < orig.len());
    }
    lemma_lowest_points(pool, orig, t);
}

proof fn lemma_lowest_points(pool: Seq<(i32, u32)>, orig: Seq<u32>, t: nat)
    requires
        forall|i: int| 0 <= i < pool.len() ==> (#[trigger] pool[i]).1 < orig.len() && orig[pool[i].1 as int] != NO_POINT,
    ensures
        lowest_points(pool, orig, t, if t == 0 {
            deduped(pool, orig)
        } else {
            smallest(deduped(pool, orig), t)
        }),
{
    let one = deduped(pool, orig);
    let r = if t == 0 {
        one
    } else {
        smallest(one, t)
    };
    assert(forall|i: int, j: int| 0 <= i < j < one.len() ==> orig[(#[trigger] one[i]).1 as int] != orig[(#[trigger] one[j]).1 as int]) by {
        law_dedup_keeps_the_best_of_each_point(pool, orig);
    }
    lemma_cut(one, t, r);
    lemma_one_each(one, orig, t, r);
    assert forall|i: int| 0 <= i < r.len() implies pool.contains(#[trigger] r[i]) by {
        law_dedup_keeps_the_best_of_each_point(pool, orig);
        assert(one.contains(r[i]));
        let x = choose|x: int| 0 <= x < one.len() && one[x] == r[i];
        assert(pool.contains(one[x]));
    }
    assert forall|i: int, e: (i32, u32)| 0 <= i < r.len() && #[trigger] pool.contains(e) && orig[e.1 as int] == orig[(#[trigger] r[i]).1 as int] implies r[i].0 <= e.0 by {
        let x = lemma_best_of_point(pool, orig, e);
        assert(one.contains(r[i]));
        let y = choose|y: int| 0 <= y < one.len() && one[y] == r[i];
        assert(orig[one[x].1 as int] == orig[one[y].1 as int]);
        assert(x == y);
    }
    assert forall|e: (i32, u32)| #[trigger] pool.contains(e) && !stands_for(r, orig, orig[e.1 as int]) implies t > 0 && r.len() == t && forall|i: int| 0 <= i < r.len() ==> (#[trigger] r[i]).0 <= e.0 by {
        let x = lemma_best_of_point(pool, orig, e);
        if r.contains(one[x]) {
            let y = choose|y: int| 0 <= y < r.len() && r[y] == one[x];
            assert(orig[r[y].1 as int] == orig[e.1 as int]);
        }
    }
}

/// Each point of a pool has an entry that is no higher than any of its candidates.
proof fn lemma_best_of_point(pool: Seq<(i32, u32)>, orig: Seq<u32>, e: (i32, u32)) -> (x: int)
    requires
        forall|i: int| 0 <= i < pool.len() ==> (#[trigger] pool[i]).1 < orig.len() && orig[pool[i].1 as int] != NO_POINT,
        pool.contains(e),
    ensures
        0 <= x < deduped(pool, orig).len(),
        orig[deduped(pool, orig)[x].1 as int] == orig[e.1 as int],
        deduped(pool, orig)[x].0 <= e.0,
{
    law_dedup_keeps_the_best_of_each_point(pool, orig);
    let one = deduped(pool, orig);
    let j = choose|j: int| 0 <= j < pool.len() && pool[j] == e;
    choose|x: int| 0 <= x < one.len() && orig[(#[trigger] one[x]).1 as int] == orig[pool[j].1 as int] && one[x].0 <= pool[j].0
}

/// What a cut leaves out is no lower than what it keeps.
proof fn lemma_cut(s: Seq<(i32, u32)>, t: nat, r: Seq<(i32, u32)>)
    requires
        r == (if t == 0 {
            s
        } else {
            smallest(s, t)
        }),
    ensures
        forall|i: int| 0 <= i < r.len() ==> s.contains(#[trigger] r[i]),
        t > 0 ==> r.len() <= t && forall|i: int, j: int| 0 <= i <= j < r.len() ==> (#[trigger] r[i]).0 <= (#[trigger] r[j]).0,
        forall|x: int| 0 <= x < s.len() && !r.contains(#[trigger] s[x]) ==> t > 0 && r.len() == t && forall|i: int| 0 <= i < r.len() ==> (#[trigger] r[i]).0 <= s[x].0,
{
    lemma_keeps(s, t);
    if t == 0 || s.len() <= t {
        lemma_all_kept(s, t);
    }
    assert forall|i: int| 0 <= i < r.len() implies s.contains(#[trigger] r[i]) by {
        if t == 0 {
            assert(s[i] == r[i]);
        }
    }
    assert forall|x: int| 0 <= x < s.len() && !r.contains(#[trigger] s[x]) implies t > 0 && r.len() == t && forall|i: int| 0 <= i < r.len() ==> (#[trigger] r[i]).0 <= s[x].0 by {
        assert(s.contains(s[x]));
    }
}

proof fn lemma_all_kept(s: Seq<(i32, u32)>, t: nat)
    requires
        t == 0 || s.len() <= t,
    ensures
        forall|e: (i32, u32)| #[trigger] s.contains(e) ==> (if t == 0 {
            s
        } else {
            smallest(s, t)
        }).contains(e),
{
    broadcast use vstd::seq_lib::group_to_multiset_ensures;

    if t > 0 {
        lemma_smallest_all(s, t);
        lemma_ascending(s);
        lemma_same_members(ascending(s), s);
    }
}

/// Candidates of distinct points stay so in a cut list.
proof fn lemma_one_each(one: Seq<(i32, u32)>, orig: Seq<u32>, t: nat, r: Seq<(i32, u32)>)
    requires
        r == (if t == 0 {
            one
        } else {
            smallest(one, t)
        }),
        forall|i: int, j: int| 0 <= i < j < one.len() ==> orig[(#[trigger] one[i]).1 as int] != orig[(#[trigger] one[j]).1 as int],
    ensures
        forall|i: int, j: int| 0 <= i < j < r.len() ==> orig[(#[trigger] r[i]).1 as int] != orig[(#[trigger] r[j]).1 as int],
{
    broadcast use vstd::seq_lib::group_to_multiset_ensures;

    if t > 0 {
        let a = ascending(one);
        lemma_ascending(one);
        lemma_same_members(a, one);
        assert(one.no_duplicates()) by {
            assert forall|i: int, j: int| 0 <= i < one.len() && 0 <= j < one.len() && i != j implies one[i] != one[j] by {
                if i < j {
                    assert(orig[one[i].1 as int] != orig[one[j].1 as int]);
                } else {
                    assert(orig[one[j].1 as int] != orig[one[i].1 as int]);
                }
            }
        }
        one.lemma_multiset_has_no_duplicates();
        a.lemma_multiset_has_no_duplicates_conv();
        assert forall|i: int, j: int| 0 <= i < j < r.len() implies orig[(#[trigger] r[i]).1 as int] != orig[(#[trigger] r[j]).1 as int] by {
            assert(r[i] == a[i] && r[j] == a[j] && a[i] != a[j]);
            assert(a.contains(a[i]) && a.contains(a[j]));
            let x = choose|x: int| 0 <= x < one.len() && one[x] == a[i];
            let y = choose|y: int| 0 <= y < one.len() && one[y] == a[j];
            if x < y {
                assert(orig[one[x].1 as int] != orig[one[y].1 as int]);
            } else {
                assert(orig[one[y].1 as int] != orig[one[x].1 as int]);
            }
        }
    }
}

// ---------------------------------------------------------------- narrowing

/// Inner product of the query with the row of a slot over the first `n` coordinates. The row is that of
/// the slot's point, or the slot's own.
pub open spec fn product(raw: Seq<i8>, d: nat, q: Seq<i8>, slot_orig: Seq<u32>, by_orig: bool, slot: u32, n: nat) -> int {
    inner(q, row_of(raw, d, if by_orig {
        slot_orig[slot as int] as int
    } else {
        slot as int
    }), n)
}

/// The entry stands for its point: no entry of the pool for that point is lower.
pub open spec fn best_entry(pool: Seq<(i32, u32)>, slot_orig: Seq<u32>, x: int) -> bool {
    &&& 0 <= x < pool.len()
    &&& slot_orig[pool[x].1 as int] != NO_POINT
    &&& forall|y: int| 0 <= y < pool.len() && slot_orig[(#[trigger] pool[y]).1 as int] == slot_orig[pool[x].1 as int] ==> pool[x].0 <= pool[y].0
}

/// The slot is that of a best entry.
pub open spec fn best_slot(pool: Seq<(i32, u32)>, slot_orig: Seq<u32>, slot: u32) -> bool {
    exists|x: int| best_entry(pool, slot_orig, x) && (#[trigger] pool[x]).1 == slot
}

/// No entry of a list has a smaller product than `v`.
pub open spec fn none_smaller(r: Seq<(i32, u32)>, raw: Seq<i8>, d: nat, q: Seq<i8>, slot_orig: Seq<u32>, by_orig: bool, n: nat, v: int) -> bool {
    forall|i: int| 0 <= i < r.len() ==> product(raw, d, q, slot_orig, by_orig, (#[trigger] r[i]).1, n) >= v
}

/// The cascade keeps one entry of the pool for each point, the best by the pool's scores, and of these
/// the `kk` of the largest inner products over the leading coordinates, each with that product negated.
/// `kk == 0` keeps all; `cdim == 0` takes all coordinates.
pub proof fn law_cascade_keeps_the_largest_products(pool: Seq<(i32, u32)>, slot_orig: Seq<u32>, raw: Seq<i8>, d: nat, cdim: nat, q: Seq<i8>, by_orig: bool, kk: nat)
    requires
        slots_exist(pool, slot_orig),
        q.len() == d,
        d <= DOT_DIM,
    ensures
        ({
            let r = cascaded(pool, slot_orig, raw, d, cdim, q, by_orig, kk);
            let n = if 0 < cdim < d {
                cdim
            } else {
                d
            };
            &&& forall|i: int| 0 <= i < r.len() ==> (#[trigger] r[i]).0 == -product(raw, d, q, slot_orig, by_orig, r[i].1, n) && best_slot(pool, slot_orig, r[i].1)
            &&& forall|i: int, j: int| 0 <= i < j < r.len() ==> slot_orig[(#[trigger] r[i]).1 as int] != slot_orig[(#[trigger] r[j]).1 as int]
            &&& kk > 0 ==> r.len() <= kk
            &&& forall|x: int| 0 <= x < pool.len() && slot_orig[(#[trigger] pool[x]).1 as int] != NO_POINT && !stands_for(r, slot_orig, slot_orig[pool[x].1 as int]) ==> kk > 0 && r.len() == kk && exists|slot: u32| #[trigger]
                best_slot(pool, slot_orig, slot) && slot_orig[slot as int] == slot_orig[pool[x].1 as int] && none_smaller(r, raw, d, q, slot_orig, by_orig, n, product(raw, d, q, slot_orig, by_orig, slot, n))
        }),
{
    let r = cascaded(pool, slot_orig, raw, d, cdim, q, by_orig, kk);
    let n = if 0 < cdim < d {
        cdim
    } else {
        d
    };
    let one = deduped(pool, slot_orig);
    let s = int8_scored(one, slot_orig, raw, d, n, q, by_orig, one.len());
    lemma_one_per_point(pool, slot_orig);
    lemma_spread(one, slot_orig, raw, d, n, q, by_orig);
    let t = if kk == 0 || kk >= s.len() {
        0
    } else {
        kk
    };
    assert(r == (if t == 0 {
        s
    } else {
        smallest(s, t)
    }));
    lemma_one_each(s, slot_orig, t, r);
    assert forall|i: int| 0 <= i < r.len() implies (#[trigger] r[i]).0 == -product(raw, d, q, slot_orig, by_orig, r[i].1, n) && best_slot(pool, slot_orig, r[i].1) by {
        lemma_cut(s, t, r);
        lemma_products(one, slot_orig, raw, d, n, q, by_orig, one.len());
        assert(s.contains(r[i]));
        let z = choose|z: int| 0 <= z < s.len() && s[z] == r[i];
        assert(s[z] == r[i]);
        let y = choose|y: int| 0 <= y < one.len() && (#[trigger] one[y]).1 == s[z].1;
        assert(best_slot(pool, slot_orig, one[y].1));
    }
    assert forall|x: int| 0 <= x < pool.len() && slot_orig[(#[trigger] pool[x]).1 as int] != NO_POINT && !stands_for(r, slot_orig, slot_orig[pool[x].1 as int]) implies kk > 0 && r.len() == kk && exists|slot: u32| #[trigger]
        best_slot(pool, slot_orig, slot) && slot_orig[slot as int] == slot_orig[pool[x].1 as int] && none_smaller(r, raw, d, q, slot_orig, by_orig, n, product(raw, d, q, slot_orig, by_orig, slot, n)) by {
        let z = lemma_point_kept(pool, slot_orig, x);
        lemma_left_out(one, slot_orig, raw, d, n, q, by_orig, t, r, z);
        assert(best_slot(pool, slot_orig, one[z].1));
    }
    assert(kk > 0 ==> r.len() <= kk) by {
        lemma_cut(s, t, r);
    }
}

/// An entry that the cut leaves out has no larger product than those it keeps.
proof fn lemma_left_out(one: Seq<(i32, u32)>, slot_orig: Seq<u32>, raw: Seq<i8>, d: nat, dd: nat, q: Seq<i8>, by_orig: bool, t: nat, r: Seq<(i32, u32)>, z: int)
    requires
        dd <= DOT_DIM,
        r == (if t == 0 {
            int8_scored(one, slot_orig, raw, d, dd, q, by_orig, one.len())
        } else {
            smallest(int8_scored(one, slot_orig, raw, d, dd, q, by_orig, one.len()), t)
        }),
        0 <= z < one.len(),
        slot_orig[one[z].1 as int] != NO_POINT,
        !stands_for(r, slot_orig, slot_orig[one[z].1 as int]),
    ensures
        t > 0,
        r.len() == t,
        none_smaller(r, raw, d, q, slot_orig, by_orig, dd, product(raw, d, q, slot_orig, by_orig, one[z].1, dd)),
{
    let s = int8_scored(one, slot_orig, raw, d, dd, q, by_orig, one.len());
    lemma_products(one, slot_orig, raw, d, dd, q, by_orig, one.len());
    lemma_cut(s, t, r);
    let w = lemma_product_kept(one, slot_orig, raw, d, dd, q, by_orig, one.len(), z);
    if r.contains(s[w]) {
        let v = choose|v: int| 0 <= v < r.len() && r[v] == s[w];
        assert(slot_orig[r[v].1 as int] == slot_orig[one[z].1 as int]);
    }
    assert forall|i: int| 0 <= i < r.len() implies product(raw, d, q, slot_orig, by_orig, (#[trigger] r[i]).1, dd) >= product(raw, d, q, slot_orig, by_orig, one[z].1, dd) by {
        assert(s.contains(r[i]));
        let y = choose|y: int| 0 <= y < s.len() && s[y] == r[i];
        assert(s[y] == r[i]);
        assert(r[i].0 <= s[w].0);
    }
}

/// One entry for each point, the best of that point.
proof fn lemma_one_per_point(pool: Seq<(i32, u32)>, slot_orig: Seq<u32>)
    requires
        slots_exist(pool, slot_orig),
    ensures
        ({
            let one = deduped(pool, slot_orig);
            &&& forall|i: int| 0 <= i < one.len() && slot_orig[(#[trigger] one[i]).1 as int] != NO_POINT ==> best_slot(pool, slot_orig, one[i].1)
            &&& forall|i: int, j: int| 0 <= i < j < one.len() ==> slot_orig[(#[trigger] one[i]).1 as int] != slot_orig[(#[trigger] one[j]).1 as int]
            &&& one.len() >= 2 ==> forall|i: int| 0 <= i < one.len() ==> slot_orig[(#[trigger] one[i]).1 as int] != NO_POINT
        }),
{
    let one = deduped(pool, slot_orig);
    if pool.len() < 2 {
        assert forall|i: int| 0 <= i < one.len() && slot_orig[(#[trigger] one[i]).1 as int] != NO_POINT implies best_slot(pool, slot_orig, one[i].1) by {
            assert(best_entry(pool, slot_orig, i) && pool[i] == one[i]);
        }
    } else {
        lemma_pool_pass(pool, slot_orig, pool.len());
        let s = pool_pass(pool, slot_orig, pool.len());
        assert(pool.take(pool.len() as int) =~= pool);
        assert forall|i: int| 0 <= i < one.len() && slot_orig[(#[trigger] one[i]).1 as int] != NO_POINT implies best_slot(pool, slot_orig, one[i].1) by {
            assert(pool.contains(s.best[i]));
            let x = choose|x: int| 0 <= x < pool.len() && pool[x] == s.best[i];
            assert(s.origs[i] != NO_POINT);
            assert forall|y: int| 0 <= y < pool.len() && slot_orig[(#[trigger] pool[y]).1 as int] == slot_orig[pool[x].1 as int] implies pool[x].0 <= pool[y].0 by {
                let j = choose|j: int| 0 <= j < s.origs.len() && #[trigger] s.origs[j] == slot_orig[pool[y].1 as int] && s.best[j].0 <= pool[y].0;
                assert(s.origs[j] == s.origs[i]);
                assert(j == i);
            }
            assert(best_entry(pool, slot_orig, x) && pool[x] == one[i]);
        }
        assert forall|i: int, j: int| 0 <= i < j < one.len() implies slot_orig[(#[trigger] one[i]).1 as int] != slot_orig[(#[trigger] one[j]).1 as int] by {
            assert(s.origs[i] != s.origs[j]);
        }
        assert forall|i: int| 0 <= i < one.len() implies slot_orig[(#[trigger] one[i]).1 as int] != NO_POINT by {
            assert(s.origs[i] != NO_POINT);
        }
    }
}

/// Every point of the pool has an entry.
proof fn lemma_point_kept(pool: Seq<(i32, u32)>, slot_orig: Seq<u32>, x: int) -> (z: int)
    requires
        slots_exist(pool, slot_orig),
        0 <= x < pool.len(),
        slot_orig[pool[x].1 as int] != NO_POINT,
    ensures
        0 <= z < deduped(pool, slot_orig).len(),
        slot_orig[deduped(pool, slot_orig)[z].1 as int] == slot_orig[pool[x].1 as int],
{
    if pool.len() < 2 {
        x
    } else {
        lemma_pool_pass(pool, slot_orig, pool.len());
        let s = pool_pass(pool, slot_orig, pool.len());
        let j = choose|j: int| 0 <= j < s.origs.len() && #[trigger] s.origs[j] == slot_orig[pool[x].1 as int] && s.best[j].0 <= pool[x].0;
        assert(slot_orig[s.best[j].1 as int] == s.origs[j]);
        j
    }
}

/// The rescored entries come from slots that hold a point.
proof fn lemma_products(one: Seq<(i32, u32)>, slot_orig: Seq<u32>, raw: Seq<i8>, d: nat, dd: nat, q: Seq<i8>, by_orig: bool, n: nat)
    requires
        n <= one.len(),
        dd <= DOT_DIM,
    ensures
        ({
            let s = int8_scored(one, slot_orig, raw, d, dd, q, by_orig, n);
            &&& s.len() <= n
            &&& forall|i: int| 0 <= i < s.len() ==> (#[trigger] s[i]).0 == -product(raw, d, q, slot_orig, by_orig, s[i].1, dd)
            &&& forall|i: int| 0 <= i < s.len() ==> slot_orig[(#[trigger] s[i]).1 as int] != NO_POINT && exists|y: int| 0 <= y < n && (#[trigger] one[y]).1 == s[i].1
        }),
    decreases n,
{
    if n > 0 {
        let m = (n - 1) as nat;
        lemma_products(one, slot_orig, raw, d, dd, q, by_orig, m);
        let p = int8_scored(one, slot_orig, raw, d, dd, q, by_orig, m);
        let s = int8_scored(one, slot_orig, raw, d, dd, q, by_orig, n);
        let slot = one[m as int].1;
        lemma_inner_bound(q, row_of(raw, d, if by_orig {
            slot_orig[slot as int] as int
        } else {
            slot as int
        }), dd);
        assert forall|i: int| 0 <= i < s.len() implies (#[trigger] s[i]).0 == -product(raw, d, q, slot_orig, by_orig, s[i].1, dd) && slot_orig[s[i].1 as int] != NO_POINT && exists|y: int| 0 <= y < n && (#[trigger] one[y]).1 == s[i].1 by {
            if i < p.len() {
                assert(s[i] == p[i]);
                let y = choose|y: int| 0 <= y < m && (#[trigger] one[y]).1 == p[i].1;
                assert(one[y].1 == s[i].1);
            } else {
                assert(one[m as int].1 == s[i].1);
            }
        }
    }
}

/// A slot that holds a point is rescored.
proof fn lemma_product_kept(one: Seq<(i32, u32)>, slot_orig: Seq<u32>, raw: Seq<i8>, d: nat, dd: nat, q: Seq<i8>, by_orig: bool, n: nat, z: int) -> (w: int)
    requires
        0 <= z < n <= one.len(),
        slot_orig[one[z].1 as int] != NO_POINT,
    ensures
        0 <= w < int8_scored(one, slot_orig, raw, d, dd, q, by_orig, n).len(),
        int8_scored(one, slot_orig, raw, d, dd, q, by_orig, n)[w].1 == one[z].1,
    decreases n,
{
    let m = (n - 1) as nat;
    let p = int8_scored(one, slot_orig, raw, d, dd, q, by_orig, m);
    if z < m {
        lemma_product_kept(one, slot_orig, raw, d, dd, q, by_orig, m, z)
    } else {
        p.len() as int
    }
}

/// Where every slot holds a point, the rescored entries stand in the same order.
proof fn lemma_products_aligned(one: Seq<(i32, u32)>, slot_orig: Seq<u32>, raw: Seq<i8>, d: nat, dd: nat, q: Seq<i8>, by_orig: bool, n: nat)
    requires
        n <= one.len(),
        forall|y: int| 0 <= y < n ==> slot_orig[(#[trigger] one[y]).1 as int] != NO_POINT,
    ensures
        int8_scored(one, slot_orig, raw, d, dd, q, by_orig, n).len() == n,
        forall|i: int| 0 <= i < n ==> (#[trigger] int8_scored(one, slot_orig, raw, d, dd, q, by_orig, n)[i]).1 == one[i].1,
    decreases n,
{
    if n > 0 {
        let m = (n - 1) as nat;
        lemma_products_aligned(one, slot_orig, raw, d, dd, q, by_orig, m);
        let p = int8_scored(one, slot_orig, raw, d, dd, q, by_orig, m);
        let s = int8_scored(one, slot_orig, raw, d, dd, q, by_orig, n);
        assert(slot_orig[one[m as int].1 as int] != NO_POINT);
        assert forall|i: int| 0 <= i < n implies (#[trigger] s[i]).1 == one[i].1 by {
            if i < m {
                assert(s[i] == p[i]);
            }
        }
    }
}

proof fn lemma_spread(one: Seq<(i32, u32)>, slot_orig: Seq<u32>, raw: Seq<i8>, d: nat, dd: nat, q: Seq<i8>, by_orig: bool)
    requires
        dd <= DOT_DIM,
        forall|i: int, j: int| 0 <= i < j < one.len() ==> slot_orig[(#[trigger] one[i]).1 as int] != slot_orig[(#[trigger] one[j]).1 as int],
        one.len() >= 2 ==> forall|i: int| 0 <= i < one.len() ==> slot_orig[(#[trigger] one[i]).1 as int] != NO_POINT,
    ensures
        ({
            let s = int8_scored(one, slot_orig, raw, d, dd, q, by_orig, one.len());
            forall|i: int, j: int| 0 <= i < j < s.len() ==> slot_orig[(#[trigger] s[i]).1 as int] != slot_orig[(#[trigger] s[j]).1 as int]
        }),
{
    lemma_products(one, slot_orig, raw, d, dd, q, by_orig, one.len());
    let s = int8_scored(one, slot_orig, raw, d, dd, q, by_orig, one.len());
    if one.len() >= 2 {
        lemma_products_aligned(one, slot_orig, raw, d, dd, q, by_orig, one.len());
    }
    assert forall|i: int, j: int| 0 <= i < j < s.len() implies slot_orig[(#[trigger] s[i]).1 as int] != slot_orig[(#[trigger] s[j]).1 as int] by {
        assert(s[i].1 == one[i].1 && s[j].1 == one[j].1);
        assert(slot_orig[one[i].1 as int] != slot_orig[one[j].1 as int]);
    }
}

/// The entries of a pool with the place of their keys for a score, where there are keys.
pub open spec fn by_keys(pool: Seq<(i32, u32)>, keys: Option<Seq<u32>>) -> Seq<(i32, u32)> {
    match keys {
        Some(bits) => Seq::new(pool.len(), |i: int| (order_key(bits[i]), pool[i].1)),
        None => pool,
    }
}

/// The slots of two lists are the same.
pub open spec fn same_slots(a: Seq<(i32, u32)>, b: Seq<(i32, u32)>) -> bool {
    a.len() == b.len() && forall|i: int| 0 <= i < a.len() ==> (#[trigger] a[i]).1 == b[i].1
}

/// Only the `depth` best of a pool are read in full, by the order of their keys, or by the pool's own
/// scores where there are no keys; `depth == 0` reads all.
pub proof fn law_shallow_rerank_reads_the_best<R: Router, C: Compressor>(ix: &Index<R, C>, pool: Seq<(i32, u32)>, keys: Option<Seq<u32>>, depth: nat)
    ensures
        depth == 0 ==> same_slots(ix.shallow(pool, keys, depth), by_keys(pool, keys)),
        depth > 0 ==> exists|kept: Seq<(i32, u32)>| #[trigger] keeps_lowest(by_keys(pool, keys), depth, kept) && same_slots(ix.shallow(pool, keys, depth), kept),
{
    let ranked = by_keys(pool, keys);
    lemma_keeps(ranked, depth);
    if depth > 0 {
        assert(same_slots(ix.shallow(pool, keys, depth), smallest(ranked, depth)));
    }
}

/// The rows that are read in full: without a cascade those of all survivors, each in its place; with one,
/// those of what the cascade keeps, from the pool alone or along the graph.
pub proof fn law_narrowing_reads_what_the_cascade_keeps<R: Router, C: Compressor>(ix: &Index<R, C>, src: UnionRows, q: Seq<i8>, pool: Seq<(i32, u32)>, graph: Option<GraphStep>, how: NarrowKnobs)
    ensures
        ({
            let r = ix.narrowed(src, q, pool, graph, how);
            let kept = cascaded(pool, ix.slot_orig@, ix.raw@, ix.d as nat, how.cdim as nat, q, ix.raw_orig_indexed, how.kk as nat);
            &&& !how.cascade ==> r.len() == pool.len() && forall|i: int| 0 <= i < r.len() ==> #[trigger] r[i] == ix.slot_orig@[pool[i].1 as int]
            &&& how.cascade && graph is None ==> r.len() == kept.len() && forall|i: int| 0 <= i < r.len() ==> #[trigger] r[i] == ix.slot_orig@[kept[i].1 as int]
            &&& how.cascade ==> (graph matches Some(g) ==> {
                let walked = graph_survivors(src, q, pool, ix.slot_orig@, *g.adj, g.policy, how.kk as nat);
                r.len() == walked.len() && forall|i: int| 0 <= i < r.len() ==> #[trigger] r[i] == walked[i].1
            })
        }),
{
}

/// The graph is followed only from candidates that were collected while scanning; else the rows that are
/// read in full are those without a graph.
pub proof fn law_graph_follows_collected_candidates<R: Router, C: Compressor>(ix: &Index<R, C>, src: UnionRows, q: Seq<i8>, data: Seq<i8>, cells: Seq<u32>, t: nat, knobs: ScanKnobs, graph: Option<GraphStep>, how: NarrowKnobs)
    ensures
        ({
            let collected = knobs.fused && ix.a0 < knobs.dedup_a0 && !knobs.pool_dedup && !(knobs.residq && ix.rq_cent@.len() > 0);
            let pool = ix.survivors_of(ix.comp.prepared(q), q, data, cells, t, knobs);
            &&& collected ==> ix.float_points(src, q, data, cells, t, knobs, graph, how) == ix.narrowed(src, q, pool, graph, how)
            &&& !collected ==> ix.float_points(src, q, data, cells, t, knobs, graph, how) == ix.narrowed(src, q, pool, None, how)
        }),
{
}

/// A query of a batch scans the cells that it probes, and cell 0 for those that it does not reach, as many
/// as it asks for or as there are.
pub proof fn law_batch_routes_begin_with_the_probes<R: Router, C: Compressor>(ix: &Index<R, C>, q: Seq<i8>, qn: Seq<i8>, p: nat)
    ensures
        ({
            let r = ix.batch_route(q, qn, p);
            let own = ix.router.probed(q, qn, p);
            &&& r.len() == (if p < ix.nc() { p } else { ix.nc() })
            &&& forall|i: int| 0 <= i < r.len() && i < own.len() ==> #[trigger] r[i] == own[i]
            &&& forall|i: int| own.len() <= i < r.len() ==> #[trigger] r[i] == 0
        }),
{
}

} // verus!
