//! Taking an index up from stored fields, with a check that they fit together.
use std::collections::HashMap;
use vstd::prelude::*;
use vstd::slice::slice_subrange;
use crate::archive::ArrayImage;
use crate::compress::Compressor;
use crate::ibin::I8Bin;
use crate::index::Index;
use crate::layout::{block_at, first_group, group_holds, il_holds, lemma_block_in_range, lemma_first_group_bound, lemma_first_group_monotone, starts_ok};
use crate::pq::{interleaves, ResidPq};
use crate::rerank::NO_POINT;
use crate::router::Router;
use crate::simd::L2_DIM;

verus! {

/// One more than the largest point of the first `n` slots; 0 where there is none.
pub open spec fn point_bound(slot_orig: Seq<u32>, n: nat) -> nat
    decreases n,
{
    if n == 0 {
        0
    } else {
        let prev = point_bound(slot_orig, (n - 1) as nat);
        let o = slot_orig[n - 1];
        if o != NO_POINT && o + 1 > prev {
            (o + 1) as nat
        } else {
            prev
        }
    }
}

proof fn lemma_point_bound(slot_orig: Seq<u32>, n: nat)
    requires
        n <= slot_orig.len(),
    ensures
        forall|s: int| 0 <= s < n ==> #[trigger] slot_orig[s] < point_bound(slot_orig, n) || slot_orig[s] == NO_POINT,
        point_bound(slot_orig, n) <= u32::MAX,
    decreases n,
{
    if n > 0 {
        lemma_point_bound(slot_orig, (n - 1) as nat);
    }
}

fn bound_points(slot_orig: &Vec<u32>) -> (r: usize)
    ensures
        r == point_bound(slot_orig@, slot_orig@.len()),
{
    let n: usize = slot_orig.len();
    let mut m: usize = 0;
    let mut i: usize = 0;
    while i < n
        invariant
            i <= n,
            n == slot_orig@.len(),
            m == point_bound(slot_orig@, i as nat),
        decreases n - i,
    {
        let o: u32 = slot_orig[i];
        if o != NO_POINT && o as usize + 1 > m {
            m = o as usize + 1;
        }
        i = i + 1;
    }
    m
}

fn check_starts(bstart: &Vec<u32>, nc: usize) -> (r: bool)
    ensures
        r == starts_ok(bstart@, nc as nat),
{
    let n: usize = bstart.len();
    if n == 0 || n - 1 != nc {
        return false;
    }
    if bstart[0] != 0 {
        return false;
    }
    let mut i: usize = 1;
    while i < n
        invariant
            1 <= i <= n,
            n == bstart@.len(),
            n == nc + 1,
            bstart@[0] == 0,
            forall|c: int, e: int| 0 <= c <= e < i ==> #[trigger] bstart@[c] <= #[trigger] bstart@[e],
        decreases n - i,
    {
        if bstart[i - 1] > bstart[i] {
            assert(bstart@[i - 1] > bstart@[i as int]);
            return false;
        }
        proof {
            assert forall|c: int, e: int| 0 <= c <= e < i + 1 implies #[trigger] bstart@[c] <= #[trigger] bstart@[e] by {
                if e == i && c < i {
                    assert(bstart@[c] <= bstart@[i - 1]);
                }
            }
        }
        i = i + 1;
    }
    true
}

fn check_group(sb: &[u8], b0: &[u8], b1: &[u8], b2: &[u8], b3: &[u8], n: usize) -> (r: bool)
    requires
        64 * n <= sb@.len(),
        16 * n <= b0@.len(),
        16 * n <= b1@.len(),
        16 * n <= b2@.len(),
        16 * n <= b3@.len(),
    ensures
        r == interleaves(sb@, seq![b0@, b1@, b2@, b3@], n as nat),
{
    let slen: usize = sb.len();
    let l0: usize = b0.len();
    let ghost bs = seq![b0@, b1@, b2@, b3@];
    let mut g: usize = 0;
    while g < n
        invariant
            g <= n,
            slen == sb@.len(),
            l0 == b0@.len(),
            64 * n <= slen,
            16 * n <= l0,
            16 * n <= b1@.len(),
            16 * n <= b2@.len(),
            16 * n <= b3@.len(),
            bs == seq![b0@, b1@, b2@, b3@],
            interleaves(sb@, bs, g as nat),
        decreases n - g,
    {
        let mut i: usize = 0;
        while i < 16
            invariant
                i <= 16,
                g < n,
                slen == sb@.len(),
                l0 == b0@.len(),
                64 * n <= slen,
                16 * n <= l0,
                16 * n <= b1@.len(),
                16 * n <= b2@.len(),
                16 * n <= b3@.len(),
                bs == seq![b0@, b1@, b2@, b3@],
                interleaves(sb@, bs, g as nat),
                forall|b: int, j: int| 0 <= b < 4 && 0 <= j < i ==> #[trigger] sb@[g * 64 + (16 * b + j)] == bs[b][g * 16 + j],
            decreases 16 - i,
        {
            let at: usize = g * 64 + i;
            let from: usize = g * 16 + i;
            if sb[at] != b0[from] {
                proof {
                    assert(sb@[g * 64 + (16 * 0 + i)] != bs[0][g * 16 + i]);
                }
                return false;
            }
            if sb[at + 16] != b1[from] {
                proof {
                    assert(sb@[g * 64 + (16 * 1 + i)] != bs[1][g * 16 + i]);
                }
                return false;
            }
            if sb[at + 32] != b2[from] {
                proof {
                    assert(sb@[g * 64 + (16 * 2 + i)] != bs[2][g * 16 + i]);
                }
                return false;
            }
            if sb[at + 48] != b3[from] {
                proof {
                    assert(sb@[g * 64 + (16 * 3 + i)] != bs[3][g * 16 + i]);
                }
                return false;
            }
            i = i + 1;
        }
        assert(interleaves(sb@, bs, (g + 1) as nat)) by {
            assert forall|h: int, b: int, j: int| 0 <= h < g + 1 && 0 <= b < 4 && 0 <= j < 16 implies #[trigger] sb@[h * 64 + (16 * b + j)] == bs[b][h * 16 + j] by {
                if h == g {
                    assert(sb@[g * 64 + (16 * b + j)] == bs[b][g * 16 + j]);
                }
            }
        }
        g = g + 1;
    }
    true
}

fn check_il(ilstart: &Vec<u32>, il: &Vec<u8>, bstart: &Vec<u32>, blocks: &Vec<u8>, bb: usize, nc: usize) -> (r: bool)
    requires
        bb % 16 == 0,
        starts_ok(bstart@, nc as nat),
        blocks@.len() == bstart@[nc as int] * bb,
    ensures
        r == il_holds(ilstart@, il@, bstart@, blocks@, bb as nat, nc as nat),
{
    let n: usize = ilstart.len();
    let blen: usize = blocks.len();
    let illen: usize = il.len();
    let ghost nb = bstart@[nc as int] as int;
    if n == 0 || n - 1 != nc {
        return false;
    }
    if ilstart[0] != 0 {
        assert(ilstart@[0] != first_group(bstart@, 0));
        return false;
    }
    let mut c: usize = 0;
    while c < nc
        invariant
            c <= nc,
            n == nc + 1,
            n == ilstart@.len(),
            starts_ok(bstart@, nc as nat),
            forall|e: int| 0 <= e <= c ==> #[trigger] ilstart@[e] == first_group(bstart@, e as nat),
        decreases nc - c,
    {
        proof {
            assert(bstart@[c as int] <= bstart@[c + 1]);
            lemma_first_group_bound(bstart@, nc as nat, (c + 1) as nat);
        }
        let blens: usize = bstart.len();
        let full: usize = (bstart[c + 1] as usize - bstart[c] as usize) / 4;
        if ilstart[c + 1] as usize != ilstart[c] as usize + full {
            assert(ilstart@[c + 1] != first_group(bstart@, (c + 1) as nat));
            return false;
        }
        c = c + 1;
    }
    let groups: usize = ilstart[nc] as usize;
    assert(0 <= groups * (4 * bb) <= u128::MAX) by (nonlinear_arith)
        requires
            0 <= groups <= u32::MAX,
            0 <= bb <= u64::MAX,
    ;
    let wide: u128 = groups as u128 * (4 * (bb as u128));
    if wide != illen as u128 {
        return false;
    }
    let mut c: usize = 0;
    while c < nc
        invariant
            c <= nc,
            n == nc + 1,
            n == ilstart@.len(),
            bb % 16 == 0,
            starts_ok(bstart@, nc as nat),
            nb == bstart@[nc as int],
            blen == blocks@.len(),
            blen == nb * bb,
            illen == il@.len(),
            groups == first_group(bstart@, nc as nat),
            illen == groups * (4 * bb),
            forall|e: int| 0 <= e <= nc ==> #[trigger] ilstart@[e] == first_group(bstart@, e as nat),
            forall|e: int, s: int| 0 <= e < c && 0 <= s < (bstart@[e + 1] - bstart@[e]) / 4 ==> #[trigger] group_holds(il@, blocks@, bb as nat, ilstart@[e] + s, bstart@[e] + 4 * s),
        decreases nc - c,
    {
        assert(bstart@[c as int] <= bstart@[c + 1] <= bstart@[nc as int]);
        let blens: usize = bstart.len();
        let bs: usize = bstart[c] as usize;
        let full: usize = (bstart[c + 1] as usize - bs) / 4;
        let g0: usize = ilstart[c] as usize;
        let mut s: usize = 0;
        while s < full
            invariant
                s <= full,
                c < nc,
                n == nc + 1,
                n == ilstart@.len(),
                bb % 16 == 0,
                starts_ok(bstart@, nc as nat),
                nb == bstart@[nc as int],
                blen == blocks@.len(),
                blen == nb * bb,
                illen == il@.len(),
                groups == first_group(bstart@, nc as nat),
                illen == groups * (4 * bb),
                bs == bstart@[c as int],
                full == (bstart@[c + 1] - bs) / 4,
                bs + 4 * full <= nb,
                g0 == ilstart@[c as int],
                g0 == first_group(bstart@, c as nat),
                forall|k: int| 0 <= k < s ==> #[trigger] group_holds(il@, blocks@, bb as nat, g0 + k, bs + 4 * k),
            decreases full - s,
        {
            let b: usize = bs + 4 * s;
            proof {
                lemma_block_in_range(b as int, bb as int, nb);
                lemma_block_in_range(b + 1, bb as int, nb);
                lemma_block_in_range(b + 2, bb as int, nb);
                lemma_block_in_range(b + 3, bb as int, nb);
                assert(first_group(bstart@, (c + 1) as nat) == g0 + full);
                lemma_first_group_monotone(bstart@, nc as nat, (c + 1) as nat, nc as nat);
                lemma_block_in_range(g0 + s, 4 * bb as int, groups as int);
            }
            let at: usize = b * bb;
            let b0: &[u8] = slice_subrange(blocks.as_slice(), at, at + bb);
            let b1: &[u8] = slice_subrange(blocks.as_slice(), at + bb, at + 2 * bb);
            let b2: &[u8] = slice_subrange(blocks.as_slice(), at + 2 * bb, at + 3 * bb);
            let b3: &[u8] = slice_subrange(blocks.as_slice(), at + 3 * bb, at + 4 * bb);
            let from: usize = (g0 + s) * (4 * bb);
            let sb: &[u8] = slice_subrange(il.as_slice(), from, from + 4 * bb);
            proof {
                let bbn = bb as nat;
                assert(b0@ =~= block_at(blocks@, bbn, b as int));
                assert(b1@ =~= block_at(blocks@, bbn, b + 1));
                assert(b2@ =~= block_at(blocks@, bbn, b + 2));
                assert(b3@ =~= block_at(blocks@, bbn, b + 3));
                assert(sb@ =~= block_at(il@, 4 * bbn, g0 + s));
            }
            if !check_group(sb, b0, b1, b2, b3, bb / 16) {
                assert(!group_holds(il@, blocks@, bb as nat, ilstart@[c as int] + s, bstart@[c as int] + 4 * s));
                return false;
            }
            assert(group_holds(il@, blocks@, bb as nat, g0 + s, bs + 4 * s));
            s = s + 1;
        }
        c = c + 1;
    }
    true
}

/// Whether `a * b == n`.
fn product_is(a: usize, b: usize, n: usize) -> (r: bool)
    ensures
        r == (a * b == n),
{
    assert(0 <= a * b <= 0xffff_ffff_ffff_ffff * 0xffff_ffff_ffff_ffff) by (nonlinear_arith)
        requires
            0 <= a <= 0xffff_ffff_ffff_ffff,
            0 <= b <= 0xffff_ffff_ffff_ffff,
    ;
    a as u128 * b as u128 == n as u128
}

impl<R: Router, C: Compressor> Index<R, C> {
    fn check_raw(&self) -> (r: bool)
        ensures
            r == self.raw_ok(),
    {
        let n: usize = self.slot_orig.len();
        let rlen: usize = self.raw.len();
        if !self.raw_orig_indexed {
            return product_is(n, self.d, rlen);
        }
        let mut i: usize = 0;
        while i < n
            invariant
                i <= n,
                n == self.slot_orig@.len(),
                rlen == self.raw@.len(),
                self.raw_orig_indexed,
                forall|s: int| 0 <= s < i && #[trigger] self.slot_orig@[s] != NO_POINT ==> (self.slot_orig@[s] + 1) * self.d <= self.raw@.len(),
            decreases n - i,
        {
            let o: u32 = self.slot_orig[i];
            if o != NO_POINT {
                let d: usize = self.d;
                assert(0 <= (o + 1) * d <= u128::MAX) by (nonlinear_arith)
                    requires
                        0 <= o <= u32::MAX,
                        0 <= d <= u64::MAX,
                ;
                if (o as u128 + 1) * (d as u128) > rlen as u128 {
                    assert((self.slot_orig@[i as int] + 1) * self.d > self.raw@.len());
                    return false;
                }
            }
            i = i + 1;
        }
        true
    }

    /// Whether the built part of the index is sound.
    pub fn check_main(&self) -> (r: bool)
        requires
            self.router.ready(),
            self.comp.ready(),
        ensures
            r == self.main_ok(),
    {
        let nc: usize = self.router.n_cells();
        if self.d != self.comp.dimension() || self.d > L2_DIM || self.bb != self.comp.block_bytes() {
            return false;
        }
        if !check_starts(&self.cell_bstart, nc) {
            return false;
        }
        let starts: usize = self.cell_bstart.len();
        let nb: usize = self.cell_bstart[nc] as usize;
        let slots: usize = self.slot_orig.len();
        if slots > 0xffff_ffff || slots / 16 != nb || slots % 16 != 0 {
            return false;
        }
        if !product_is(nb, self.bb, self.blocks.len()) {
            return false;
        }
        let rq: usize = self.rq_cent.len();
        if rq != 0 && !product_is(nc, self.d, rq) {
            return false;
        }
        if !self.check_raw() {
            return false;
        }
        if self.blocks_il.len() == 0 {
            return true;
        }
        self.bb % 16 == 0 && check_il(&self.cell_ilstart, &self.blocks_il, &self.cell_bstart, &self.blocks, self.bb, nc)
    }

    /// Whether `ds` holds the rows of all stored points.
    pub fn rows_fit(&self, ds: &I8Bin<'_>) -> (r: bool)
        ensures
            r == self.rows_in(ds),
    {
        if !product_is(ds.nb, ds.d, ds.data.len()) || ds.d != self.d {
            return false;
        }
        let n: usize = self.slot_orig.len();
        let mut i: usize = 0;
        while i < n
            invariant
                i <= n,
                n == self.slot_orig@.len(),
                forall|s: int| 0 <= s < i ==> #[trigger] self.slot_orig@[s] < ds.nb || self.slot_orig@[s] == NO_POINT,
            decreases n - i,
        {
            let o: u32 = self.slot_orig[i];
            if o != NO_POINT && o as usize >= ds.nb {
                assert(!(self.slot_orig@[i as int] < ds.nb || self.slot_orig@[i as int] == NO_POINT));
                return false;
            }
            i = i + 1;
        }
        true
    }

    /// Take an index up from its stored fields, with an empty append buffer. Where they do not fit
    /// together, the unsound index is handed back as an error.
    pub fn revive(d: usize, bb: usize, a0: usize, by_orig: bool, arrays: ArrayImage, resid: Option<ResidPq>, router: R, comp: C) -> (r: Result<Self, Self>)
        requires
            router.ready(),
            comp.ready(),
            router.cells() < u32::MAX,
        ensures
            ({
                let ix = match r {
                    Ok(ix) => ix,
                    Err(ix) => ix,
                };
                &&& (r is Ok) == (ix.main_ok() && ix.n_main < u32::MAX - 1)
                &&& r is Ok ==> ix.wf()
                &&& ix.d == d
                &&& ix.bb == bb
                &&& ix.a0 == a0
                &&& ix.raw_orig_indexed == by_orig
                &&& ix.cell_bstart == arrays.cell_bstart
                &&& ix.slot_orig == arrays.slot_orig
                &&& ix.blocks == arrays.blocks
                &&& ix.xfn == arrays.xfn
                &&& ix.raw == arrays.raw
                &&& ix.blocks_il == arrays.blocks_il
                &&& ix.cell_ilstart == arrays.cell_ilstart
                &&& ix.resid_codes == arrays.resid_codes
                &&& ix.rq_cent == arrays.rq_cent
                &&& ix.resid_pq == resid
                &&& ix.router == router
                &&& ix.comp == comp
                &&& ix.empty_buffer()
                &&& ix.main_rev is None
                &&& ix.n_main == point_bound(arrays.slot_orig@, arrays.slot_orig@.len())
            }),
    {
        let nc: usize = router.n_cells();
        let n_main: usize = bound_points(&arrays.slot_orig);
        let mut ins_blocks: Vec<Vec<u8>> = Vec::new();
        let mut ins_gidx: Vec<Vec<u32>> = Vec::new();
        let mut i: usize = 0;
        while i < nc
            invariant
                i <= nc,
                ins_blocks@.len() == i,
                ins_gidx@.len() == i,
                forall|c: int| 0 <= c < i ==> (#[trigger] ins_blocks@[c])@.len() == 0,
                forall|c: int| 0 <= c < i ==> (#[trigger] ins_gidx@[c])@.len() == 0,
            decreases nc - i,
        {
            ins_blocks.push(Vec::new());
            ins_gidx.push(Vec::new());
            i = i + 1;
        }
        let ix = Index {
            router,
            comp,
            cell_bstart: arrays.cell_bstart,
            slot_orig: arrays.slot_orig,
            blocks: arrays.blocks,
            bb,
            xfn: arrays.xfn,
            raw: arrays.raw,
            d,
            blocks_il: arrays.blocks_il,
            cell_ilstart: arrays.cell_ilstart,
            resid_pq: resid,
            resid_codes: arrays.resid_codes,
            rq_cent: arrays.rq_cent,
            a0,
            raw_orig_indexed: by_orig,
            ins_blocks,
            ins_gidx,
            ins_full_blocks: vec![0usize; nc],
            ins_raw: Vec::new(),
            ins_orig: Vec::new(),
            ins_loc: HashMap::new(),
            ins_dirty: Vec::new(),
            ins_count: 0,
            main_rev: None,
            n_main,
        };
        if ix.check_main() && n_main < 0xffff_fffe {
            proof {
                lemma_point_bound(ix.slot_orig@, ix.slot_orig@.len());
                ix.lemma_fresh_is_wf();
            }
            Ok(ix)
        } else {
            Err(ix)
        }
    }
}

} // verus!
