//! What holds of the cells of a freshly built index.

use crate::compress::Compressor;
use crate::ibin::I8Bin;
use crate::index::Index;
use crate::layout::{blocks_for, cell_sizes, cell_slots, first_block, lemma_first_block_monotone, members, padded, slot_row, starts_ok, Cells};
use crate::rerank::NO_POINT;
use crate::router::Router;
use crate::simd::row_of;
use vstd::prelude::*;

verus! {

/// How many of the first `n` entries name point `o`.
pub open spec fn copies(list: Seq<u32>, o: u32, n: nat) -> nat
    decreases n,
{
    if n == 0 {
        0
    } else {
        copies(list, o, (n - 1) as nat) + if list[n - 1] == o {
            1nat
        } else {
            0nat
        }
    }
}

/// How many of the points of the cells below `c` are `o`, after `n` assignments.
spec fn copies_below(assign: Seq<u32>, a0: nat, o: u32, c: nat, n: nat) -> nat
    decreases c,
{
    if c == 0 {
        0
    } else {
        let pts = members(assign, a0, c - 1, n);
        copies_below(assign, a0, o, (c - 1) as nat, n) + copies(pts, o, pts.len())
    }
}

/// How many of the first `n` assignments are of point `o`.
spec fn given(a0: nat, o: nat, n: nat) -> nat {
    if n <= o * a0 {
        0
    } else if n - o * a0 >= a0 {
        a0
    } else {
        (n - o * a0) as nat
    }
}

proof fn lemma_copies_prefix(a: Seq<u32>, b: Seq<u32>, o: u32, n: nat)
    requires
        n <= a.len(),
        n <= b.len(),
        forall|i: int| 0 <= i < n ==> a[i] == b[i],
    ensures
        copies(a, o, n) == copies(b, o, n),
    decreases n,
{
    if n > 0 {
        lemma_copies_prefix(a, b, o, (n - 1) as nat);
    }
}

/// The entries of a stretch are counted on.
proof fn lemma_copies_stretch(list: Seq<u32>, o: u32, from: nat, n: nat)
    requires
        from + n <= list.len(),
    ensures
        copies(list, o, from + n) == copies(list, o, from) + copies(list.subrange(from as int, (from + n) as int), o, n),
    decreases n,
{
    if n > 0 {
        let m = (n - 1) as nat;
        lemma_copies_stretch(list, o, from, m);
        let part = list.subrange(from as int, (from + n) as int);
        let less = list.subrange(from as int, (from + m) as int);
        lemma_copies_prefix(part, less, o, m);
        assert(part[n - 1] == list[from + n - 1]);
    }
}

/// The empty slots of a cell name no point.
proof fn lemma_copies_padded(pts: Seq<u32>, o: u32, n: nat)
    requires
        o != NO_POINT,
        n <= padded(pts).len(),
    ensures
        copies(padded(pts), o, n) == copies(pts, o, (if n < pts.len() { n } else { pts.len() }) as nat),
    decreases n,
{
    if n > 0 {
        lemma_copies_padded(pts, o, (n - 1) as nat);
    }
}

proof fn lemma_copies_below_step(assign: Seq<u32>, a0: nat, o: u32, c: nat, n: nat)
    ensures
        copies_below(assign, a0, o, c, n + 1) == copies_below(assign, a0, o, c, n) + (if assign[n as int] < c && (n / a0) as u32 == o {
            1nat
        } else {
            0nat
        }),
    decreases c,
{
    if c > 0 {
        lemma_copies_below_step(assign, a0, o, (c - 1) as nat, n);
        let was = members(assign, a0, c - 1, n);
        let now = members(assign, a0, c - 1, n + 1);
        if assign[n as int] == c - 1 {
            assert(now == was.push((n as int / a0 as int) as u32));
            lemma_copies_prefix(now, was, o, was.len());
        }
    }
}

proof fn lemma_copies_below_none(assign: Seq<u32>, a0: nat, o: u32, c: nat)
    ensures
        copies_below(assign, a0, o, c, 0) == 0,
    decreases c,
{
    if c > 0 {
        lemma_copies_below_none(assign, a0, o, (c - 1) as nat);
    }
}

proof fn lemma_copies_given(assign: Seq<u32>, a0: nat, o: u32, nc: nat, n: nat)
    requires
        a0 >= 1,
        n <= assign.len(),
        assign.len() <= u32::MAX,
        forall|i: int| 0 <= i < assign.len() ==> #[trigger] assign[i] < nc,
    ensures
        copies_below(assign, a0, o, nc, n) == given(a0, o as nat, n),
    decreases n,
{
    if n == 0 {
        lemma_copies_below_none(assign, a0, o, nc);
    } else {
        let m = (n - 1) as nat;
        lemma_copies_given(assign, a0, o, nc, m);
        lemma_copies_below_step(assign, a0, o, nc, m);
        assert(assign[m as int] < nc);
        let p = m / a0;
        assert(p <= m) by (nonlinear_arith)
            requires
                p == m / a0,
                a0 >= 1,
        ;
        let k = o as nat * a0;
        assert((p == o) == (k <= m < k + a0)) by (nonlinear_arith)
            requires
                p == m / a0,
                a0 >= 1,
                k == o as nat * a0,
        {
            assert(m == a0 * p + m % a0);
            assert(m % a0 < a0);
            if p < o {
                assert(p + 1 <= o);
                assert((p + 1) * a0 <= o * a0);
            }
            if p > o {
                assert(p >= o + 1);
                assert(p * a0 >= (o + 1) * a0);
            }
        }
    }
}

/// The slots of the first `c` cells hold the points of those cells.
proof fn lemma_copies_stored(bstart: Seq<u32>, slot_orig: Seq<u32>, assign: Seq<u32>, a0: nat, o: u32, nc: nat, c: nat)
    requires
        o != NO_POINT,
        c <= nc,
        bstart.len() == nc + 1,
        forall|e: int| 0 <= e <= nc ==> #[trigger] bstart[e] == first_block(cell_sizes(assign, a0, nc), e as nat),
        slot_orig.len() == 16 * first_block(cell_sizes(assign, a0, nc), nc),
        forall|e: int| 0 <= e < nc ==> #[trigger] cell_slots(bstart, slot_orig, e) == padded(members(assign, a0, e, assign.len())),
    ensures
        copies(slot_orig, o, (16 * bstart[c as int]) as nat) == copies_below(assign, a0, o, c, assign.len()),
    decreases c,
{
    let sizes = cell_sizes(assign, a0, nc);
    if c == 0 {
        assert(bstart[0] == first_block(sizes, 0));
    } else {
        let e = (c - 1) as nat;
        lemma_copies_stored(bstart, slot_orig, assign, a0, o, nc, e);
        let pts = members(assign, a0, e as int, assign.len());
        assert(bstart[e as int] == first_block(sizes, e) && bstart[c as int] == first_block(sizes, c));
        assert(sizes[e as int] == pts.len());
        lemma_first_block_monotone(sizes, c, nc);
        let n = 16 * blocks_for(pts.len());
        assert(cell_slots(bstart, slot_orig, e as int) == padded(pts));
        lemma_copies_stretch(slot_orig, o, (16 * bstart[e as int]) as nat, n);
        lemma_copies_padded(pts, o, n);
    }
}

/// The points of a cell rise.
pub proof fn lemma_members_rise(assign: Seq<u32>, a0: nat, c: int, n: nat)
    requires
        a0 >= 1,
        n <= u32::MAX,
    ensures
        forall|i: int, j: int| 0 <= i <= j < members(assign, a0, c, n).len() ==> #[trigger] members(assign, a0, c, n)[i] <= #[trigger] members(assign, a0, c, n)[j],
        forall|i: int| 0 <= i < members(assign, a0, c, n).len() ==> n > 0 && #[trigger] members(assign, a0, c, n)[i] <= (n - 1) / a0 as int,
    decreases n,
{
    if n > 0 {
        let m = (n - 1) as nat;
        lemma_members_rise(assign, a0, c, m);
        let prev = members(assign, a0, c, m);
        let all = members(assign, a0, c, n);
        assert((n - 1) / a0 as int <= n - 1 && (m > 0 ==> (m - 1) / a0 as int <= (n - 1) / a0 as int)) by (nonlinear_arith)
            requires
                a0 >= 1,
                n >= 1,
                m == n - 1,
        {
            if m > 0 {
                vstd::arithmetic::div_mod::lemma_div_is_ordered(m - 1, n - 1, a0 as int);
            }
        }
        assert forall|i: int| 0 <= i < all.len() implies #[trigger] all[i] <= (n - 1) / a0 as int by {
            if i < prev.len() {
                assert(all[i] == prev[i]);
                assert(m > 0);
            }
        }
        assert forall|i: int, j: int| 0 <= i <= j < all.len() implies #[trigger] all[i] <= #[trigger] all[j] by {
            if j < prev.len() {
                assert(all[i] == prev[i] && all[j] == prev[j]);
            } else if i < prev.len() {
                assert(all[i] <= (n - 1) / a0 as int);
            }
        }
    }
}

/// The cells of a built index: they partition the blocks in order; each holds its points in rising
/// order, then fewer than sixteen empty slots; every point has exactly `a0` slots; and where rows stand
/// in slot order, a slot has the row of its point, an empty one zeros.
pub proof fn law_built_cells_hold_every_copy<R: Router, C: Compressor>(ix: &Index<R, C>, ds: &I8Bin<'_>, assign: Seq<u32>, a0: nat, cents: Seq<i8>)
    requires
        (Cells { bstart: ix.cell_bstart, slot_orig: ix.slot_orig, blocks: ix.blocks }).hold(&ix.comp, ds.data@, ds.d as nat, assign, a0, ix.nc(), cents),
        a0 >= 1,
        assign.len() == ds.nb * a0,
        assign.len() <= u32::MAX,
        forall|i: int| 0 <= i < assign.len() ==> #[trigger] assign[i] < ix.nc(),
        forall|s: int| !ix.raw_orig_indexed && 0 <= s < ix.slot_orig@.len() ==> #[trigger] row_of(ix.raw@, ds.d as nat, s) == slot_row(ix.slot_orig@, ds.data@, ds.d as nat, s),
    ensures
        starts_ok(ix.cell_bstart@, ix.nc()),
        ix.slot_orig@.len() == 16 * ix.cell_bstart@[ix.nc() as int],
        ix.blocks@.len() == ix.cell_bstart@[ix.nc() as int] * ix.comp.block_len(),
        forall|c: int| 0 <= c < ix.nc() ==> {
            let pts = members(assign, a0, c, assign.len());
            let slots = #[trigger] cell_slots(ix.cell_bstart@, ix.slot_orig@, c);
            &&& pts.len() <= slots.len() < pts.len() + 16
            &&& forall|i: int| 0 <= i < slots.len() ==> #[trigger] slots[i] == (if i < pts.len() { pts[i] } else { NO_POINT })
            &&& forall|i: int, j: int| 0 <= i <= j < pts.len() ==> #[trigger] pts[i] <= #[trigger] pts[j]
        },
        forall|o: u32| o < ds.nb ==> #[trigger] copies(ix.slot_orig@, o, ix.slot_orig@.len()) == a0,
        forall|s: int| !ix.raw_orig_indexed && 0 <= s < ix.slot_orig@.len() && ix.slot_orig@[s] != NO_POINT ==> #[trigger] row_of(ix.raw@, ds.d as nat, s) == row_of(ds.data@, ds.d as nat, ix.slot_orig@[s] as int),
        forall|s: int, k: int| !ix.raw_orig_indexed && 0 <= s < ix.slot_orig@.len() && ix.slot_orig@[s] == NO_POINT && 0 <= k < ds.d ==> #[trigger] row_of(ix.raw@, ds.d as nat, s)[k] == 0,
{
    let nc = ix.nc();
    let nb = ds.nb as nat;
    let sizes = cell_sizes(assign, a0, nc);
    let b = ix.cell_bstart@;
    let slot_orig = ix.slot_orig@;
    assert forall|c: int, e: int| 0 <= c <= e <= nc implies #[trigger] b[c] <= #[trigger] b[e] by {
        lemma_first_block_monotone(sizes, c as nat, e as nat);
    }
    assert(b[0] == first_block(sizes, 0));
    assert(b[nc as int] == first_block(sizes, nc));
    assert forall|c: int| 0 <= c < nc implies {
        let pts = members(assign, a0, c, assign.len());
        let slots = #[trigger] cell_slots(b, slot_orig, c);
        &&& pts.len() <= slots.len() < pts.len() + 16
        &&& forall|i: int| 0 <= i < slots.len() ==> #[trigger] slots[i] == (if i < pts.len() { pts[i] } else { NO_POINT })
        &&& forall|i: int, j: int| 0 <= i <= j < pts.len() ==> #[trigger] pts[i] <= #[trigger] pts[j]
    } by {
        lemma_members_rise(assign, a0, c, assign.len());
    }
    assert forall|o: u32| o < nb implies #[trigger] copies(slot_orig, o, slot_orig.len()) == a0 by {
        let k = o as nat * a0;
        assert(k + a0 <= nb * a0 && nb <= nb * a0) by (nonlinear_arith)
            requires
                k == o as nat * a0,
                o < nb,
                a0 >= 1,
        ;
        lemma_copies_stored(b, slot_orig, assign, a0, o, nc, nc);
        lemma_copies_given(assign, a0, o, nc, assign.len());
    }
}

} // verus!
