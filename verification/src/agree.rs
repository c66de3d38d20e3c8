//! Settings that are there for speed alone: with them or without, the answers are the same.

use crate::archive::{image, law_image_comes_back, parsed, CompParts, IndexParts};
use crate::compress::{Compressor, QueryCtx};
use crate::hier::HierRouter;
use crate::image::{nested, LoadError};
use crate::index::{Index, ScanKnobs};
use crate::order::ascending;
use crate::rerank::{rescored, row_index, NO_POINT};
use crate::router::Router;
use crate::scan::gathered;
use crate::search::{lemma_gathered_same, live_slots};
use crate::simd::row_of;
use vstd::prelude::*;

verus! {

/// Two routers with the same tree and settings, but for the norm-decomposition kernel.
pub open spec fn same_tree(a: HierRouter, b: HierRouter) -> bool {
    &&& a.d == b.d
    &&& a.kf == b.kf
    &&& a.levels == b.levels
    &&& nested(a.cent@) == nested(b.cent@)
    &&& nested(a.child@) == nested(b.child@)
    &&& a.beam@ == b.beam@
    &&& a.adc_m() == b.adc_m()
    &&& a.rcodes@ == b.rcodes@
    &&& a.gbias@ == b.gbias@
    &&& a.knobs.sdim == b.knobs.sdim
    &&& a.knobs.sdim0 == b.knobs.sdim0
    &&& a.knobs.beam0 == b.knobs.beam0
    &&& a.knobs.adc_keep == b.knobs.adc_keep
}

/// The same tree has the same levels.
proof fn lemma_same_level(a: HierRouter, b: HierRouter, l: int)
    requires
        same_tree(a, b),
        a.wf(),
        0 <= l < a.levels,
    ensures
        a.cent@[l]@ == b.cent@[l]@,
        a.child@[l]@ == b.child@[l]@,
{
    assert(nested(a.cent@).len() == nested(b.cent@).len());
    assert(nested(a.cent@)[l] == nested(b.cent@)[l]);
    assert(nested(a.child@).len() == nested(b.child@).len());
    assert(nested(a.child@)[l] == nested(b.child@)[l]);
}

proof fn lemma_same_frontier(a: HierRouter, b: HierRouter, qn: Seq<i8>, coarse: Option<Seq<u32>>, lut: Option<Seq<i8>>, l: nat)
    requires
        same_tree(a, b),
        a.wf(),
        l < a.levels - 1,
    ensures
        a.frontier(qn, coarse, lut, l) == b.frontier(qn, coarse, lut, l),
    decreases l,
{
    lemma_same_level(a, b, l as int);
    if l == 0 {
        assert(a.coarse_scores(qn) =~= b.coarse_scores(qn));
    } else {
        lemma_same_level(a, b, l - 1);
        lemma_same_frontier(a, b, qn, coarse, lut, (l - 1) as nat);
        let up = a.frontier(qn, coarse, lut, (l - 1) as nat);
        let ids = crate::hier::children(a.child@[l - 1]@, up, up.len());
        assert(a.scored_level(qn, lut, l as int, ids) =~= b.scored_level(qn, lut, l as int, ids));
    }
}

/// The norm-decomposition kernel, and the packed copy of the codes, change no route.
pub proof fn law_norm_kernel_changes_no_route(a: HierRouter, b: HierRouter, qn: Seq<i8>, coarse: Option<Seq<u32>>, lut: Option<Seq<i8>>, k: nat)
    requires
        same_tree(a, b),
        a.wf(),
    ensures
        a.gathered(qn, coarse, lut) == b.gathered(qn, coarse, lut),
        a.routed(qn, coarse, lut, k) == b.routed(qn, coarse, lut, k),
{
    let l = (a.levels - 2) as nat;
    lemma_same_level(a, b, a.levels - 2);
    lemma_same_level(a, b, a.levels - 1);
    lemma_same_frontier(a, b, qn, coarse, lut, l);
    let up = a.frontier(qn, coarse, lut, l);
    let ids = crate::hier::children(a.child@[a.levels - 2]@, up, up.len());
    assert(a.scored_level(qn, lut, a.levels - 1, ids) =~= b.scored_level(qn, lut, a.levels - 1, ids));
    assert(a.gathered(qn, coarse, lut) =~= b.gathered(qn, coarse, lut));
}

/// The interleaved copy of the blocks changes no answer.
pub proof fn law_wide_scan_changes_no_answer<R: Router, C: Compressor>(ix: &Index<R, C>, q: Seq<i8>, data: Seq<i8>, cells: Seq<u32>, t: nat, k: nat, a: ScanKnobs, b: ScanKnobs)
    requires
        b == (ScanKnobs { use512: b.use512, ..a }),
    ensures
        ix.found(q, data, cells, t, k, a) == ix.found(q, data, cells, t, k, b),
{
}

/// Two indices that store the same codes; how they store the raw rows is left open.
pub open spec fn same_codes<R: Router, C: Compressor>(a: &Index<R, C>, b: &Index<R, C>) -> bool {
    &&& a.comp == b.comp
    &&& a.d == b.d
    &&& a.bb == b.bb
    &&& a.a0 == b.a0
    &&& a.cell_bstart@ == b.cell_bstart@
    &&& a.slot_orig@ == b.slot_orig@
    &&& a.blocks@ == b.blocks@
    &&& a.rq_cent@ == b.rq_cent@
}

proof fn lemma_same_lanes<R: Router, C: Compressor>(a: &Index<R, C>, b: &Index<R, C>, ctx: QueryCtx, q: Seq<i8>, data: Seq<i8>, c: u32)
    requires
        same_codes(a, b),
    ensures
        a.plain_lanes(ctx, q, data)(c) == b.plain_lanes(ctx, q, data)(c),
        a.shifted_lanes(ctx, q, data)(c) == b.shifted_lanes(ctx, q, data)(c),
{
    assert(a.cell_scores(ctx, q, data, c as int) =~= b.cell_scores(ctx, q, data, c as int));
}

proof fn lemma_same_survivors<R: Router, C: Compressor>(a: &Index<R, C>, b: &Index<R, C>, ctx: QueryCtx, q: Seq<i8>, data: Seq<i8>, cells: Seq<u32>, t: nat, knobs: ScanKnobs)
    requires
        same_codes(a, b),
    ensures
        a.survivors_of(ctx, q, data, cells, t, knobs) == b.survivors_of(ctx, q, data, cells, t, knobs),
{
    let visited = if knobs.sort_cells {
        ascending(cells)
    } else {
        cells
    };
    assert forall|c: u32| #[trigger] a.plain_lanes(ctx, q, data)(c) == b.plain_lanes(ctx, q, data)(c) by {
        lemma_same_lanes(a, b, ctx, q, data, c);
    }
    assert forall|c: u32| #[trigger] a.shifted_lanes(ctx, q, data)(c) == b.shifted_lanes(ctx, q, data)(c) by {
        lemma_same_lanes(a, b, ctx, q, data, c);
    }
    lemma_gathered_same(a.plain_lanes(ctx, q, data), b.plain_lanes(ctx, q, data), visited);
    lemma_gathered_same(a.shifted_lanes(ctx, q, data), b.shifted_lanes(ctx, q, data), visited);
}

proof fn lemma_same_scores(pool: Seq<(i32, u32)>, orig: Seq<u32>, ra: Seq<i8>, rb: Seq<i8>, d: nat, q: Seq<i8>, ba: bool, bb: bool, ip: bool, n: nat)
    requires
        n <= pool.len(),
        live_slots(pool, orig),
        forall|s: int| 0 <= s < orig.len() && #[trigger] orig[s] != NO_POINT ==> row_of(ra, d, row_index(orig, s as u32, ba)) == row_of(rb, d, row_index(orig, s as u32, bb)),
    ensures
        rescored(pool, orig, ra, d, q, ba, ip, n) == rescored(pool, orig, rb, d, q, bb, ip, n),
    decreases n,
{
    if n > 0 {
        lemma_same_scores(pool, orig, ra, rb, d, q, ba, bb, ip, (n - 1) as nat);
        let slot = pool[n - 1].1;
        assert(slot < orig.len() && orig[slot as int] != NO_POINT);
        assert((slot as int) as u32 == slot);
    }
}

/// Keeping one raw row per point in place of one per slot changes no answer.
pub proof fn law_raw_storage_changes_no_answer<R: Router, C: Compressor>(a: &Index<R, C>, b: &Index<R, C>, q: Seq<i8>, data: Seq<i8>, cells: Seq<u32>, t: nat, k: nat, knobs: ScanKnobs)
    requires
        same_codes(a, b),
        a.main_ok(),
        a.cells_exist(cells),
        a.reads(data),
        b.reads(data),
    ensures
        a.found(q, data, cells, t, k, knobs) == b.found(q, data, cells, t, k, knobs),
{
    let ctx = a.comp.prepared(q);
    lemma_same_survivors(a, b, ctx, q, data, cells, t, knobs);
    let pool = a.survivors_of(ctx, q, data, cells, t, knobs);
    a.lemma_survivors_live(ctx, q, data, cells, t, knobs);
    let orig = a.slot_orig@;
    let d = a.d as nat;
    assert forall|s: int| 0 <= s < orig.len() && #[trigger] orig[s] != NO_POINT implies row_of(a.raw@, d, row_index(orig, s as u32, a.raw_orig_indexed)) == row_of(b.raw@, d, row_index(orig, s as u32, b.raw_orig_indexed)) by {
        assert(b.slot_orig@[s] != NO_POINT);
    }
    lemma_same_scores(pool, orig, a.raw@, b.raw@, d, q, a.raw_orig_indexed, b.raw_orig_indexed, knobs.ip, pool.len());
}

/// An index that was put together from the image of another one is sound, routes every query to the
/// same cells and answers it the same.
pub proof fn law_loaded_index_answers_the_same<C: Compressor>(
    a: &Index<HierRouter, C>,
    b: &Index<HierRouter, C>,
    comp: CompParts,
    q: Seq<i8>,
    qn: Seq<i8>,
    data: Seq<i8>,
    p: nat,
    t: nat,
    k: nat,
    knobs: ScanKnobs,
)
    requires
        a.main_ok(),
        parsed(image(a.parts(comp))) == Ok::<IndexParts, LoadError>(b.parts(comp)),
        a.parts(comp).fits(),
        b.comp == a.comp,
        b.router.wf(),
        b.router.knobs == a.router.knobs,
        b.router.gbias@ == a.router.gbias@,
    ensures
        b.main_ok(),
        b.router.probed(q, qn, p) == a.router.probed(q, qn, p),
        b.found(q, data, b.router.probed(q, qn, p), t, k, knobs) == a.found(q, data, a.router.probed(q, qn, p), t, k, knobs),
{
    law_image_comes_back(a.parts(comp));
    let (va, vb) = (a.parts(comp), b.parts(comp));
    assert(va == vb);
    assert(va.arrays == vb.arrays && va.router == vb.router);
    assert(a.router.parts() == b.router.parts());
    assert(a.router.adc_m() == b.router.adc_m()) by {
        assert(crate::store::opt_parts(a.router.radc) == crate::store::opt_parts(b.router.radc));
    }
    assert(same_tree(a.router, b.router));
    law_norm_kernel_changes_no_route(a.router, b.router, qn, None, None, p);
    lemma_same_survivors(a, b, a.comp.prepared(q), q, data, a.router.probed(q, qn, p), t, knobs);
}

} // verus!
