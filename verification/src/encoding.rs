//! What a block holds: the codes of the points in its slots, in order.

use crate::compress::Compressor;
use crate::index::Index;
use crate::layout::{block_at, blocks_for, cell_blocks, cell_code, cell_sizes, cell_slots, centroid_of, chunk, first_block, lemma_first_block_monotone, members, padded, rows_of, Cells};
use crate::rerank::NO_POINT;
use crate::router::Router;
use crate::simd::row_of;
use vstd::prelude::*;

verus! {

/// Every block that the compressor makes has its block length.
pub open spec fn blocks_fit<C: Compressor>(comp: &C) -> bool {
    forall|rows: Seq<Seq<i8>>, cent: Seq<i8>| 1 <= rows.len() <= 16 ==> (#[trigger] comp.encoded(rows, cent)).len() == comp.block_len()
}

/// How many points the block of number `b` of a cell of `n` points holds.
pub open spec fn points_in(n: nat, b: int) -> int {
    if n - 16 * b < 16 {
        n - 16 * b
    } else {
        16
    }
}

proof fn lemma_block_of_cell<C: Compressor>(comp: &C, data: Seq<i8>, d: nat, pts: Seq<u32>, cent: Seq<i8>, n: nat, b: int)
    requires
        blocks_fit(comp),
        n <= blocks_for(pts.len()),
        0 <= b < n,
    ensures
        cell_code(comp, data, d, pts, cent, n).len() == n * comp.block_len(),
        block_at(cell_code(comp, data, d, pts, cent, n), comp.block_len(), b) == comp.encoded(rows_of(data, d, chunk(pts, b)), cent),
    decreases n,
{
    let bl = comp.block_len() as int;
    let m = (n - 1) as nat;
    let part = comp.encoded(rows_of(data, d, chunk(pts, m as int)), cent);
    assert(part.len() == bl);
    let before = cell_code(comp, data, d, pts, cent, m);
    lemma_code_len(comp, data, d, pts, cent, m);
    let all = cell_code(comp, data, d, pts, cent, n);
    assert(n * bl == m * bl + bl && 0 <= b * bl && b * bl + bl <= n * bl && (b < m ==> b * bl + bl <= m * bl)) by (nonlinear_arith)
        requires
            n == m + 1,
            0 <= b < n,
            bl >= 0,
    ;
    if b < m {
        lemma_block_of_cell(comp, data, d, pts, cent, m, b);
        assert(block_at(all, comp.block_len(), b) =~= block_at(before, comp.block_len(), b));
    } else {
        assert(block_at(all, comp.block_len(), b) =~= part);
    }
}

proof fn lemma_code_len<C: Compressor>(comp: &C, data: Seq<i8>, d: nat, pts: Seq<u32>, cent: Seq<i8>, n: nat)
    requires
        blocks_fit(comp),
        n <= blocks_for(pts.len()),
    ensures
        cell_code(comp, data, d, pts, cent, n).len() == n * comp.block_len(),
    decreases n,
{
    let bl = comp.block_len() as int;
    if n > 0 {
        lemma_code_len(comp, data, d, pts, cent, (n - 1) as nat);
        assert(comp.encoded(rows_of(data, d, chunk(pts, n - 1)), cent).len() == bl);
        assert(n * bl == (n - 1) * bl + bl) by (nonlinear_arith);
    } else {
        assert(0 * bl == 0) by (nonlinear_arith);
    }
}

/// Block `b` of a built cell encodes the rows of the points in its 16 slots, in the order of the slots and
/// against the centroid of the cell; the slots behind them are empty.
pub proof fn law_blocks_encode_their_slots<C: Compressor>(cells: Cells, comp: &C, data: Seq<i8>, d: nat, assign: Seq<u32>, a0: nat, nc: nat, cents: Seq<i8>, c: int, b: int)
    requires
        blocks_fit(comp),
        cells.hold(comp, data, d, assign, a0, nc, cents),
        0 <= c < nc,
        0 <= b < cells.bstart@[c + 1] - cells.bstart@[c],
    ensures
        ({
            let at = cells.bstart@[c] + b;
            let n = points_in(members(assign, a0, c, assign.len()).len(), b);
            &&& 1 <= n <= 16
            &&& block_at(cells.blocks@, comp.block_len(), at) == comp.encoded(Seq::new(n as nat, |i: int| row_of(data, d, cells.slot_orig@[16 * at + i] as int)), if cents.len() == 0 {
                Seq::empty()
            } else {
                row_of(cents, d, c)
            })
            &&& forall|i: int| 0 <= i < n ==> #[trigger] cells.slot_orig@[16 * at + i] == members(assign, a0, c, assign.len())[16 * b + i]
            &&& forall|i: int| n <= i < 16 ==> #[trigger] cells.slot_orig@[16 * at + i] == NO_POINT
        }),
{
    let pts = members(assign, a0, c, assign.len());
    let at = cells.bstart@[c] + b;
    let n = points_in(pts.len(), b);
    let orig = cells.slot_orig@;
    let sizes = cell_sizes(assign, a0, nc);
    assert(cells.bstart@[nc as int] == first_block(sizes, nc));
    assert(cells.bstart@[c + 1] == first_block(sizes, (c + 1) as nat));
    lemma_first_block_monotone(sizes, (c + 1) as nat, nc);
    assert(cell_slots(cells.bstart@, orig, c) == padded(pts));
    lemma_slots_of_block(cells.bstart@, orig, pts, c, b);
    assert(cell_blocks(cells.bstart@, cells.blocks@, comp.block_len(), c) == cell_code(comp, data, d, pts, centroid_of(cents, d, c), blocks_for(pts.len())));
    lemma_bytes_of_block(cells.bstart@, cells.blocks@, comp, data, d, pts, centroid_of(cents, d, c), nc, c, b);
    let rows = Seq::new(n as nat, |i: int| row_of(data, d, orig[16 * at + i] as int));
    assert(rows_of(data, d, chunk(pts, b)) =~= rows) by {
        assert forall|i: int| 0 <= i < n implies rows_of(data, d, chunk(pts, b))[i] == rows[i] by {
            assert(orig[16 * at + i] == pts[16 * b + i]);
        }
    }
}

proof fn lemma_slots_of_block(bs: Seq<u32>, orig: Seq<u32>, pts: Seq<u32>, c: int, b: int)
    requires
        0 <= c < bs.len() - 1,
        bs[c] <= bs[c + 1],
        16 * bs[c + 1] <= orig.len(),
        cell_slots(bs, orig, c) == padded(pts),
        0 <= b < bs[c + 1] - bs[c],
    ensures
        blocks_for(pts.len()) == bs[c + 1] - bs[c],
        1 <= points_in(pts.len(), b) <= 16,
        forall|i: int| 0 <= i < points_in(pts.len(), b) ==> #[trigger] orig[16 * (bs[c] + b) + i] == pts[16 * b + i],
        forall|i: int| points_in(pts.len(), b) <= i < 16 ==> #[trigger] orig[16 * (bs[c] + b) + i] == NO_POINT,
{
    let slots = cell_slots(bs, orig, c);
    assert(slots.len() == 16 * (bs[c + 1] - bs[c]));
    assert forall|i: int| 0 <= i < 16 implies #[trigger] orig[16 * (bs[c] + b) + i] == padded(pts)[16 * b + i] by {
        assert(slots[16 * b + i] == orig[16 * bs[c] + (16 * b + i)]);
    }
}

proof fn lemma_bytes_of_block<C: Compressor>(bs: Seq<u32>, blocks: Seq<u8>, comp: &C, data: Seq<i8>, d: nat, pts: Seq<u32>, cent: Seq<i8>, nc: nat, c: int, b: int)
    requires
        blocks_fit(comp),
        bs.len() == nc + 1,
        0 <= c < nc,
        bs[c] <= bs[c + 1] <= bs[nc as int],
        blocks.len() == bs[nc as int] * comp.block_len(),
        blocks_for(pts.len()) == bs[c + 1] - bs[c],
        cell_blocks(bs, blocks, comp.block_len(), c) == cell_code(comp, data, d, pts, cent, blocks_for(pts.len())),
        0 <= b < bs[c + 1] - bs[c],
    ensures
        block_at(blocks, comp.block_len(), bs[c] + b) == comp.encoded(rows_of(data, d, chunk(pts, b)), cent),
{
    let bl = comp.block_len() as int;
    let at = bs[c] + b;
    let code = cell_blocks(bs, blocks, comp.block_len(), c);
    lemma_block_of_cell(comp, data, d, pts, cent, blocks_for(pts.len()), b);
    let (s, e, t) = (bs[c] as int, bs[c + 1] as int, bs[nc as int] as int);
    assert(0 <= s * bl && s * bl + (b * bl + bl) <= e * bl && e * bl <= t * bl && at * bl == s * bl + b * bl && 0 <= b * bl) by (nonlinear_arith)
        requires
            0 <= s,
            e <= t,
            at == s + b,
            0 <= b < e - s,
            bl >= 0,
    ;
    assert(block_at(blocks, comp.block_len(), at) =~= block_at(code, comp.block_len(), b));
}

/// Block `b` of the appended points of a cell encodes the rows of the points in its 16 places, in the order
/// in which they were appended.
pub proof fn law_appended_blocks_encode_their_points<R: Router, C: Compressor>(ix: &Index<R, C>, c: int, b: int)
    requires
        blocks_fit(&ix.comp),
        ix.bb == ix.comp.block_len(),
        ix.encoded(c),
        0 <= b,
        16 * b < ix.ins_gidx@[c]@.len(),
    ensures
        block_at(ix.ins_blocks@[c]@, ix.bb as nat, b) == ix.comp.encoded(Seq::new(points_in(ix.ins_gidx@[c]@.len(), b) as nat, |i: int| row_of(ix.ins_raw@, ix.d as nat, ix.ins_gidx@[c]@[16 * b + i] as int)), Seq::empty()),
{
    let pts = ix.ins_gidx@[c]@;
    let nb = blocks_for(pts.len());
    lemma_block_of_cell(&ix.comp, ix.ins_raw@, ix.d as nat, pts, Seq::empty(), nb, b);
    let rows = Seq::new(points_in(pts.len(), b) as nat, |i: int| row_of(ix.ins_raw@, ix.d as nat, pts[16 * b + i] as int));
    assert(rows_of(ix.ins_raw@, ix.d as nat, chunk(pts, b)) =~= rows);
}

} // verus!
