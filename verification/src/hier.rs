//! Hierarchical routing: a tree of centroids, descended with a beam per level.
use vstd::prelude::*;
use vstd::slice::slice_subrange;
use crate::order::{smallest, ascending, keep_smallest, sort_ascending, lemma_smallest, lemma_ascending};
use crate::router::{ids_of, Router};
use crate::simd::{
    sqdist, l2, row_of, cadj, sqnorm, block_l2, l2_i8, l2_i8_block, l2_i8_block_norm, sqnorm_i8, lemma_sqdist_bound,
    lemma_row_in_range, L2_DIM,
};
use crate::pq::{adc_i8, block_adc_i8_i16acc, Pq, MAX_M};

verus! {

/// Query-time settings of the descent.
#[derive(Clone, Copy)]
pub struct RouteKnobs {
    /// Score only this many leading coordinates at the finest level; 0 for all.
    pub sdim: usize,
    /// Score only this many leading coordinates at the coarsest level; 0 for all.
    pub sdim0: usize,
    /// Use the norm-decomposition kernel where all coordinates are scored.
    pub vnni: bool,
    /// Beam of the coarsest level in place of the built-in one; 0 for the built-in one.
    pub beam0: usize,
    /// After scoring the finest level from codes, rescore this many exactly; 0 for none.
    pub adc_keep: usize,
}

/// A tree of int8 centroids with at least two levels. Level 0 is the coarsest; the cells of the
/// finest level are the cells of the index. Single-precision values are kept as bit patterns.
pub struct HierRouter {
    pub d: usize,
    pub mu: Vec<u32>,
    pub kf: usize,
    pub levels: usize,
    /// Centroids of each level, row-major; children of one parent are contiguous.
    pub cent: Vec<Vec<i8>>,
    /// For each level but the finest: where the children of each cell start in the next level.
    pub child: Vec<Vec<u32>>,
    /// How many cells of each level but the finest are expanded.
    pub beam: Vec<usize>,
    /// Spill weight of the further cells of a point, a single by its bits.
    pub soar: u32,
    /// Codebook of the finest centroids, for scoring from codes.
    pub radc: Option<Pq>,
    /// Codes of the finest centroids, `m` per centroid.
    pub rcodes: Vec<u8>,
    /// The same codes packed in blocks of 16 centroids, read where the centroids fill whole blocks; empty
    /// without a codebook.
    pub rblocks: Vec<u8>,
    /// Per-centroid constants of the norm-decomposition kernel; empty where it is not used.
    pub cadj: Vec<Vec<i32>>,
    /// Added to the exact scores of the finest cells; empty for none.
    pub gbias: Vec<i32>,
    pub cent_f16: Vec<Vec<u16>>,
    pub knobs: RouteKnobs,
}

/// The ids `s .. e`.
pub open spec fn range_ids(s: int, e: int) -> Seq<u32> {
    Seq::new((e - s) as nat, |i: int| (s + i) as u32)
}

/// Children of the first `n` selected cells, in order.
pub open spec fn children(child: Seq<u32>, sel: Seq<u32>, n: nat) -> Seq<u32>
    decreases n,
{
    if n == 0 {
        Seq::empty()
    } else {
        children(child, sel, (n - 1) as nat) + range_ids(child[sel[n - 1] as int] as int, child[sel[n - 1] + 1] as int)
    }
}

/// The `b` best of a scored list, best first; a beam of 0 keeps all.
pub open spec fn beam_cut(s: Seq<(i32, u32)>, b: nat) -> Seq<(i32, u32)> {
    if b == 0 {
        ascending(s)
    } else {
        smallest(s, b)
    }
}

/// Sum of the table entries that `n` codes from `base` on select.
pub open spec fn code_sum(lut: Seq<i8>, codes: Seq<u8>, base: int, n: nat) -> int
    decreases n,
{
    if n == 0 {
        0
    } else {
        code_sum(lut, codes, base, (n - 1) as nat) + lut[16 * (n - 1) + codes[base + n - 1]]
    }
}

/// A block scored with two codes per byte gives the sum over the codes.
pub proof fn lemma_block_is_code_sum(lut: Seq<i8>, bytes: Seq<u8>, i: nat, codes: Seq<u8>, base: int, n: nat)
    requires
        forall|g: int| 0 <= g < n ==> (#[trigger] bytes[g * 16 + i]) % 16 == codes[base + 2 * g] && bytes[g * 16 + i] / 16 == codes[base + 2 * g + 1],
    ensures
        adc_i8(lut, bytes, 16, i, n) == code_sum(lut, codes, base, 2 * n),
    decreases n,
{
    if n > 0 {
        lemma_block_is_code_sum(lut, bytes, i, codes, base, (n - 1) as nat);
        let g = n - 1;
        assert(bytes[g * 16 + i] % 16 == codes[base + 2 * g]);
        reveal_with_fuel(code_sum, 3);
        assert(bytes[g * 16nat + i] == bytes[g * 16 + i]);
    }
}

/// Coordinates that are scored when `want` leading ones are asked for.
pub open spec fn dims_used(want: nat, d: nat) -> nat {
    if 0 < want < d {
        want
    } else {
        d
    }
}

impl HierRouter {
    /// Number of cells of level `l`.
    pub open spec fn count(&self, l: int) -> nat {
        self.cent@[l]@.len() / (self.d as nat)
    }

    /// Centroid of cell `c` of level `l`.
    pub open spec fn centroid(&self, l: int, c: int) -> Seq<i8> {
        row_of(self.cent@[l]@, self.d as nat, c)
    }

    pub open spec fn tree_ok(&self, l: int) -> bool {
        let child = self.child@[l]@;
        &&& child.len() == self.count(l) + 1
        &&& forall|i: int, j: int| 0 <= i <= j < child.len() ==> #[trigger] child[i] <= #[trigger] child[j]
        &&& forall|i: int| 0 <= i < child.len() ==> #[trigger] child[i] <= self.count(l + 1)
    }

    pub open spec fn level_ok(&self, l: int) -> bool {
        &&& self.cent@[l]@.len() == self.count(l) * self.d
        &&& self.count(l) <= u32::MAX
    }

    pub open spec fn cadj_ok(&self, l: int) -> bool {
        &&& self.cadj@[l]@.len() == self.count(l)
        &&& forall|c: int| 0 <= c < self.count(l) ==> #[trigger] self.cadj@[l]@[c] == cadj(self.centroid(l, c))
    }

    /// Codes per finest centroid; 0 without a codebook.
    pub open spec fn adc_m(&self) -> nat {
        match self.radc {
            Some(p) => p.m as nat,
            None => 0,
        }
    }

    /// Byte of group `g` of lane `i` of packed block `b`.
    pub open spec fn packed_at(&self, b: int, g: int, i: int) -> u8 {
        self.rblocks@[(b * (self.adc_m() / 2) + g) * 16 + i]
    }

    /// The packed blocks hold the codes.
    pub open spec fn blocks_ok(&self) -> bool {
        let m = self.adc_m();
        &&& self.rblocks@.len() == (self.kf / 16) * ((m / 2) * 16)
        &&& forall|b: int, g: int, i: int|
            0 <= b < self.kf / 16 && 0 <= g < m / 2 && 0 <= i < 16 ==> (#[trigger] self.packed_at(b, g, i)) % 16 == self.rcodes@[(16 * b + i) * m + 2 * g] && self.packed_at(b, g, i) / 16 == self.rcodes@[(16 * b + i) * m + 2 * g + 1]
    }

    pub open spec fn codes_ok(&self) -> bool {
        let m = self.adc_m();
        &&& m % 2 == 0
        &&& m <= MAX_M
        &&& self.rcodes@.len() == self.kf * m
        &&& forall|i: int| 0 <= i < self.rcodes@.len() ==> #[trigger] self.rcodes@[i] < 16
        &&& self.kf % 16 == 0 && self.rblocks@.len() > 0 ==> self.blocks_ok()
    }

    pub open spec fn wf(&self) -> bool {
        &&& 0 < self.d <= L2_DIM
        &&& 2 <= self.levels
        &&& self.cent@.len() == self.levels
        &&& self.child@.len() == self.levels
        &&& self.beam@.len() == self.levels - 1
        &&& forall|l: int| 0 <= l < self.levels ==> #[trigger] self.level_ok(l)
        &&& forall|l: int| 0 <= l < self.levels - 1 ==> #[trigger] self.tree_ok(l)
        &&& self.kf == self.count(self.levels - 1)
        &&& self.cadj@.len() == 0 || (self.cadj@.len() == self.levels && forall|l: int| 0 <= l < self.levels ==> #[trigger] self.cadj_ok(l))
        &&& self.gbias@.len() == 0 || (self.gbias@.len() == self.kf && forall|c: int| 0 <= c < self.kf ==> 65025 * self.d + #[trigger] self.gbias@[c] <= i32::MAX)
        &&& self.radc is Some ==> self.codes_ok()
    }

    /// Score of cell `c` of level `l` at `qn`; a table scores the finest level from codes.
    pub open spec fn level_score(&self, qn: Seq<i8>, lut: Option<Seq<i8>>, l: int, c: int) -> int {
        if l < self.levels - 1 {
            sqdist(qn, self.centroid(l, c), self.d as nat)
        } else {
            match lut {
                Some(t) => code_sum(t, self.rcodes@, c * self.adc_m(), self.adc_m()),
                None => sqdist(qn, self.centroid(l, c), dims_used(self.knobs.sdim as nat, self.d as nat)) + if self.gbias@.len() > 0 {
                    self.gbias@[c] as int
                } else {
                    0
                },
            }
        }
    }

    /// Cells of a level with their scores.
    pub open spec fn scored_level(&self, qn: Seq<i8>, lut: Option<Seq<i8>>, l: int, ids: Seq<u32>) -> Seq<(i32, u32)> {
        Seq::new(ids.len(), |i: int| (self.level_score(qn, lut, l, ids[i] as int) as i32, ids[i]))
    }

    /// All cells of the coarsest level with their scores.
    pub open spec fn coarse_scores(&self, qn: Seq<i8>) -> Seq<(i32, u32)> {
        Seq::new(self.count(0), |c: int| (sqdist(qn, self.centroid(0, c), dims_used(self.knobs.sdim0 as nat, self.d as nat)) as i32, c as u32))
    }

    /// Cells of the coarsest level that are expanded: the given ones, or the best of the beam.
    pub open spec fn coarse_sel(&self, qn: Seq<i8>, coarse: Option<Seq<u32>>) -> Seq<u32> {
        match coarse {
            Some(c) => c,
            None => ids_of(beam_cut(self.coarse_scores(qn), if self.knobs.beam0 > 0 { self.knobs.beam0 as nat } else { self.beam@[0] as nat })),
        }
    }

    /// Cells of level `l` that are expanded.
    pub open spec fn frontier(&self, qn: Seq<i8>, coarse: Option<Seq<u32>>, lut: Option<Seq<i8>>, l: nat) -> Seq<u32>
        decreases l,
    {
        if l == 0 {
            self.coarse_sel(qn, coarse)
        } else {
            let up = self.frontier(qn, coarse, lut, (l - 1) as nat);
            let ids = children(self.child@[l - 1]@, up, up.len());
            ids_of(beam_cut(self.scored_level(qn, lut, l as int, ids), self.beam@[l as int] as nat))
        }
    }

    /// The scored finest cells that the descent reaches.
    pub open spec fn gathered(&self, qn: Seq<i8>, coarse: Option<Seq<u32>>, lut: Option<Seq<i8>>) -> Seq<(i32, u32)> {
        let up = self.frontier(qn, coarse, lut, (self.levels - 2) as nat);
        let ids = children(self.child@[self.levels - 2]@, up, up.len());
        let nd = self.scored_level(qn, lut, self.levels - 1, ids);
        if lut is Some && self.knobs.adc_keep > 0 {
            let kept = smallest(nd, self.knobs.adc_keep as nat);
            Seq::new(kept.len(), |i: int| (l2(qn, self.centroid(self.levels - 1, kept[i].1 as int)) as i32, kept[i].1))
        } else {
            nd
        }
    }

    /// What the descent takes: a vector of the router's dimension, existing coarse cells, and a
    /// table that fits the codes.
    pub open spec fn inputs_ok(&self, qn: Seq<i8>, coarse: Option<Seq<u32>>, lut: Option<Seq<i8>>) -> bool {
        &&& qn.len() == self.d
        &&& coarse matches Some(c) ==> forall|i: int| 0 <= i < c.len() ==> #[trigger] c[i] < self.count(0)
        &&& lut matches Some(t) ==> self.radc is Some && t.len() >= self.adc_m() * 16
    }
}

/// The ids of a cut list come from the list.
proof fn lemma_beam_cut_below(s: Seq<(i32, u32)>, b: nat, n: nat)
    requires
        forall|i: int| 0 <= i < s.len() ==> (#[trigger] s[i]).1 < n,
    ensures
        forall|i: int| 0 <= i < ids_of(beam_cut(s, b)).len() ==> #[trigger] ids_of(beam_cut(s, b))[i] < n,
{
    broadcast use vstd::seq_lib::group_to_multiset_ensures;

    lemma_smallest(s, b);
    lemma_ascending(s);
    let r = beam_cut(s, b);
    assert forall|i: int| 0 <= i < ids_of(r).len() implies #[trigger] ids_of(r)[i] < n by {
        assert(s.contains(r[i])) by {
            if b == 0 {
                assert(ascending(s).contains(r[i]));
                assert(ascending(s).to_multiset().contains(r[i]));
                assert(s.to_multiset().contains(r[i]));
            }
        }
        let k = choose|k: int| 0 <= k < s.len() && s[k] == r[i];
        assert(s[k].1 < n);
    }
}

/// Children of existing cells exist.
proof fn lemma_children_below(r: HierRouter, l: int, sel: Seq<u32>, n: nat)
    requires
        r.wf(),
        0 <= l < r.levels - 1,
        n <= sel.len(),
        forall|i: int| 0 <= i < sel.len() ==> #[trigger] sel[i] < r.count(l),
    ensures
        forall|i: int| 0 <= i < children(r.child@[l]@, sel, n).len() ==> #[trigger] children(r.child@[l]@, sel, n)[i] < r.count(l + 1),
    decreases n,
{
    if n > 0 {
        lemma_children_below(r, l, sel, (n - 1) as nat);
        let child = r.child@[l]@;
        assert(r.tree_ok(l));
        assert(r.level_ok(l + 1));
        let p = sel[n - 1] as int;
        assert(p < r.count(l));
        let a = children(child, sel, (n - 1) as nat);
        let b = range_ids(child[p] as int, child[p + 1] as int);
        assert(child[p] <= child[p + 1] <= r.count(l + 1));
        let all = children(child, sel, n);
        assert forall|i: int| 0 <= i < all.len() implies #[trigger] all[i] < r.count(l + 1) by {
            if i < a.len() {
                assert(all[i] == a[i]);
            } else {
                assert(all[i] == b[i - a.len()]);
            }
        }
    }
}

/// Every expanded cell exists.
pub proof fn lemma_frontier_below(r: HierRouter, qn: Seq<i8>, coarse: Option<Seq<u32>>, lut: Option<Seq<i8>>, l: nat)
    requires
        r.wf(),
        r.inputs_ok(qn, coarse, lut),
        l < r.levels - 1,
    ensures
        forall|i: int| 0 <= i < r.frontier(qn, coarse, lut, l).len() ==> #[trigger] r.frontier(qn, coarse, lut, l)[i] < r.count(l as int),
    decreases l,
{
    assert(r.level_ok(l as int));
    if l == 0 {
        let b = if r.knobs.beam0 > 0 { r.knobs.beam0 as nat } else { r.beam@[0] as nat };
        lemma_beam_cut_below(r.coarse_scores(qn), b, r.count(0));
    } else {
        lemma_frontier_below(r, qn, coarse, lut, (l - 1) as nat);
        let up = r.frontier(qn, coarse, lut, (l - 1) as nat);
        lemma_children_below(r, l - 1, up, up.len());
        let ids = children(r.child@[l - 1]@, up, up.len());
        lemma_beam_cut_below(r.scored_level(qn, lut, l as int, ids), r.beam@[l as int] as nat, r.count(l as int));
    }
}

/// Every gathered cell exists.
pub proof fn lemma_gathered_below(r: HierRouter, qn: Seq<i8>, coarse: Option<Seq<u32>>, lut: Option<Seq<i8>>)
    requires
        r.wf(),
        r.inputs_ok(qn, coarse, lut),
    ensures
        forall|i: int| 0 <= i < r.gathered(qn, coarse, lut).len() ==> (#[trigger] r.gathered(qn, coarse, lut)[i]).1 < r.kf,
{
    let l = (r.levels - 2) as nat;
    lemma_frontier_below(r, qn, coarse, lut, l);
    let up = r.frontier(qn, coarse, lut, l);
    lemma_children_below(r, l as int, up, up.len());
    let ids = children(r.child@[l as int]@, up, up.len());
    let nd = r.scored_level(qn, lut, r.levels - 1, ids);
    assert forall|i: int| 0 <= i < r.gathered(qn, coarse, lut).len() implies (#[trigger] r.gathered(qn, coarse, lut)[i]).1 < r.kf by {
        if lut is Some && r.knobs.adc_keep > 0 {
            let kept = smallest(nd, r.knobs.adc_keep as nat);
            lemma_smallest(nd, r.knobs.adc_keep as nat);
            assert(nd.contains(kept[i]));
            let k = choose|k: int| 0 <= k < nd.len() && nd[k] == kept[i];
            assert(ids[k] < r.kf);
        } else {
            assert(ids[i] < r.kf);
        }
    }
}

/// Row `i` of the rows `s .. e` is row `s + i`.
proof fn lemma_row_of_rows(m: Seq<i8>, d: nat, s: int, e: int, i: int)
    requires
        0 <= s,
        0 <= i < e - s,
        e * d <= m.len(),
    ensures
        0 <= s * d <= e * d,
        (e - s) * d == e * d - s * d,
        row_of(m.subrange(s * d, e * d), d, i) == row_of(m, d, s + i),
{
    assert(0 <= s * d && s * d + (i * d + d) <= e * d && (e - s) * d == e * d - s * d && (s + i) * d == s * d + i * d && 0 <= i * d) by (nonlinear_arith)
        requires
            0 <= s,
            0 <= i < e - s,
            0 <= d,
    ;
    assert(row_of(m.subrange(s * d, e * d), d, i) =~= row_of(m, d, s + i));
}

impl HierRouter {
    /// Squared distances of `qn` to the cells `s .. e` of a level over the first `sd` coordinates.
    fn level_l2(&self, qn: &[i8], qnorm: i32, l: usize, s: usize, e: usize, sd: usize) -> (r: Vec<i32>)
        requires
            self.wf(),
            qn@.len() == self.d,
            qnorm == sqnorm(qn@),
            l < self.levels,
            s <= e <= self.count(l as int),
            sd <= self.d,
        ensures
            r@.len() == e - s,
            forall|i: int| 0 <= i < e - s ==> #[trigger] r@[i] == sqdist(qn@, self.centroid(l as int, s + i), sd as nat),
    {
        let d: usize = self.d;
        let nc: usize = e - s;
        let mut scores: Vec<i32> = vec![0; nc];
        if nc == 0 {
            return scores;
        }
        let lv = self.cent[l].as_slice();
        let len: usize = lv.len();
        proof {
            assert(self.level_ok(l as int));
            let c = self.count(l as int) as int;
            let dd = d as int;
            let ee = e as int;
            assert(ee * dd <= c * dd) by (nonlinear_arith)
                requires
                    ee <= c,
                    dd >= 0,
            ;
            lemma_row_of_rows(lv@, d as nat, s as int, e as int, 0);
        }
        let block = slice_subrange(lv, s * d, e * d);
        assert forall|i: int| 0 <= i < nc implies row_of(block@, d as nat, i) == #[trigger] self.centroid(l as int, s + i) by {
            lemma_row_of_rows(lv@, d as nat, s as int, e as int, i);
        }
        if self.knobs.vnni && sd == d && self.cadj.len() > 0 {
            assert(self.cadj_ok(l as int));
            let adj = slice_subrange(self.cadj[l].as_slice(), s, e);
            assert forall|i: int| 0 <= i < nc implies #[trigger] adj@[i] == cadj(row_of(block@, d as nat, i)) by {
                assert(adj@[i] == self.cadj@[l as int]@[s + i]);
                assert(row_of(block@, d as nat, i) == self.centroid(l as int, s + i));
            }
            l2_i8_block_norm(qn, block, adj, nc, d, qnorm, scores.as_mut_slice());
        } else {
            l2_i8_block(qn, block, nc, d, sd, scores.as_mut_slice());
        }
        assert forall|i: int| 0 <= i < nc implies #[trigger] scores@[i] == sqdist(qn@, self.centroid(l as int, s + i), sd as nat) by {
            assert(scores@[i] == block_l2(qn@, block@, d as nat, sd as nat, i));
        }
        scores
    }

    /// Sum of the table entries of the codes of finest cell `c`.
    fn code_score(&self, t: &Vec<i8>, m: usize, c: usize) -> (r: i32)
        requires
            self.wf(),
            self.radc is Some,
            m == self.adc_m(),
            t@.len() >= m * 16,
            c < self.kf,
        ensures
            r == code_sum(t@, self.rcodes@, c * self.adc_m(), self.adc_m()),
    {
        let rlen: usize = self.rcodes.len();
        proof {
            let cc = c as int;
            let kk = self.kf as int;
            let mm = m as int;
            assert(0 <= cc * mm && cc * mm + mm <= kk * mm) by (nonlinear_arith)
                requires
                    0 <= cc < kk,
                    0 <= mm,
            ;
        }
        let base: usize = c * m;
        let mut sc: i32 = 0;
        let mut sub: usize = 0;
        while sub < m
            invariant
                sub <= m,
                m <= MAX_M,
                rlen == self.rcodes@.len(),
                base + m <= rlen,
                t@.len() >= m * 16,
                forall|i: int| 0 <= i < self.rcodes@.len() ==> #[trigger] self.rcodes@[i] < 16,
                sc == code_sum(t@, self.rcodes@, base as int, sub as nat),
                -128 * sub <= sc <= 127 * sub,
            decreases m - sub,
        {
            assert(self.rcodes@[base + sub] < 16);
            sc = sc + t[sub * 16 + self.rcodes[base + sub] as usize] as i32;
            sub = sub + 1;
        }
        sc
    }

    /// Append the finest cells `s .. e` with their scores from codes, 16 cells at a time where the
    /// range is made of whole packed blocks.
    fn push_code_scores(&self, t: &Vec<i8>, s: usize, e: usize, qn: Ghost<Seq<i8>>, nd: &mut Vec<(i32, u32)>)
        requires
            self.wf(),
            self.radc is Some,
            t@.len() >= self.adc_m() * 16,
            s <= e <= self.kf,
        ensures
            final(nd)@ == old(nd)@ + self.scored_level(qn@, Some(t@), self.levels - 1, range_ids(s as int, e as int)),
    {
        let m: usize = match &self.radc {
            Some(p) => p.m,
            None => 0,
        };
        assert(self.level_ok(self.levels - 1));
        let ghost all = self.scored_level(qn@, Some(t@), self.levels - 1, range_ids(s as int, e as int));
        let rblen: usize = self.rblocks.len();
        if self.kf % 16 == 0 && rblen > 0 && s % 16 == 0 && (e - s) % 16 == 0 {
            let gb: usize = (m / 2) * 16;
            let nb: usize = (e - s) / 16;
            let mut out16: [i32; 16] = [0; 16];
            let mut jb: usize = 0;
            assert(nd@ =~= old(nd)@ + all.take(0));
            while jb < nb
                invariant
                    jb <= nb,
                    nb == (e - s) / 16,
                    (e - s) % 16 == 0,
                    s % 16 == 0,
                    s <= e <= self.kf,
                    self.kf <= u32::MAX,
                    self.wf(),
                    self.radc is Some,
                    m == self.adc_m(),
                    gb == (m / 2) * 16,
                    rblen == self.rblocks@.len(),
                    self.blocks_ok(),
                    t@.len() >= m * 16,
                    all == self.scored_level(qn@, Some(t@), self.levels - 1, range_ids(s as int, e as int)),
                    nd@ == old(nd)@ + all.take(jb * 16),
                decreases nb - jb,
            {
                let blk: usize = s / 16 + jb;
                proof {
                    lemma_row_in_range(blk as int, gb as int, (self.kf / 16) as int, rblen as int);
                }
                let block = slice_subrange(self.rblocks.as_slice(), blk * gb, blk * gb + gb);
                block_adc_i8_i16acc(block, m, t.as_slice(), &mut out16);
                let mut i: usize = 0;
                while i < 16
                    invariant
                        i <= 16,
                        jb < nb,
                        nb == (e - s) / 16,
                        (e - s) % 16 == 0,
                        s % 16 == 0,
                        s <= e <= self.kf,
                        self.kf <= u32::MAX,
                        self.wf(),
                        self.radc is Some,
                        m == self.adc_m(),
                        gb == (m / 2) * 16,
                        blk == s / 16 + jb,
                        blk * gb + gb <= self.rblocks@.len(),
                        block@ == self.rblocks@.subrange(blk * gb, blk * gb + gb),
                        self.blocks_ok(),
                        forall|x: int| 0 <= x < 16 ==> #[trigger] out16@[x] == adc_i8(t@, block@, 16, x as nat, (m / 2) as nat),
                        all == self.scored_level(qn@, Some(t@), self.levels - 1, range_ids(s as int, e as int)),
                        nd@ == old(nd)@ + all.take(jb * 16 + i),
                    decreases 16 - i,
                {
                    let c: usize = s + jb * 16 + i;
                    proof {
                        let p = jb * 16 + i;
                        let mm = self.adc_m() as int;
                        assert(c == 16 * blk + i);
                        assert forall|g: int| 0 <= g < m / 2 implies (#[trigger] block@[g * 16 + i]) % 16 == self.rcodes@[c * mm + 2 * g] && block@[g * 16 + i] / 16 == self.rcodes@[c * mm + 2 * g + 1] by {
                            let b = blk as int;
                            let h = (mm / 2) as int;
                            assert(b * (h * 16) + (g * 16 + i) == (b * h + g) * 16 + i) by (nonlinear_arith);
                            assert(block@[g * 16 + i] == self.packed_at(b, g, i as int));
                        }
                        lemma_block_is_code_sum(t@, block@, i as nat, self.rcodes@, c * mm, (m / 2) as nat);
                        assert(all[p] == (out16@[i as int], c as u32));
                        assert(nd@.push((out16@[i as int], c as u32)) =~= old(nd)@ + all.take(p + 1));
                    }
                    nd.push((out16[i], c as u32));
                    i = i + 1;
                }
                jb = jb + 1;
            }
            assert(all.take(nb * 16) =~= all);
        } else {
            let mut c: usize = s;
            assert(nd@ =~= old(nd)@ + all.take(0));
            while c < e
                invariant
                    s <= c <= e,
                    e <= self.kf,
                    self.kf <= u32::MAX,
                    self.wf(),
                    self.radc is Some,
                    m == self.adc_m(),
                    t@.len() >= m * 16,
                    all == self.scored_level(qn@, Some(t@), self.levels - 1, range_ids(s as int, e as int)),
                    nd@ == old(nd)@ + all.take(c - s),
                decreases e - c,
            {
                let sc: i32 = self.code_score(t, m, c);
                assert(all[c - s] == (sc, c as u32));
                assert(nd@.push((sc, c as u32)) =~= old(nd)@ + all.take(c - s + 1));
                nd.push((sc, c as u32));
                c = c + 1;
            }
            assert(all.take(e - s) =~= all);
        }
    }

    /// Append the cells `s .. e` of a level with their exact scores.
    fn push_l2_scores(&self, qn: &[i8], qnorm: i32, l: usize, s: usize, e: usize, nd: &mut Vec<(i32, u32)>)
        requires
            self.wf(),
            qn@.len() == self.d,
            qnorm == sqnorm(qn@),
            1 <= l < self.levels,
            s <= e <= self.count(l as int),
        ensures
            final(nd)@ == old(nd)@ + self.scored_level(qn@, None, l as int, range_ids(s as int, e as int)),
    {
        let finest = l == self.levels - 1;
        let d: usize = self.d;
        let sd: usize = if finest && self.knobs.sdim > 0 && self.knobs.sdim < d { self.knobs.sdim } else { d };
        let scores = self.level_l2(qn, qnorm, l, s, e, sd);
        let biased = finest && self.gbias.len() > 0;
        let ghost all = self.scored_level(qn@, None, l as int, range_ids(s as int, e as int));
        assert(self.level_ok(l as int));
        let mut c: usize = s;
        assert(nd@ =~= old(nd)@ + all.take(0));
        while c < e
            invariant
                s <= c <= e,
                e <= self.count(l as int),
                self.count(l as int) <= u32::MAX,
                self.wf(),
                1 <= l < self.levels,
                finest == (l == self.levels - 1),
                d == self.d,
                sd == (if finest { dims_used(self.knobs.sdim as nat, d as nat) } else { d as nat }),
                biased == (finest && self.gbias@.len() > 0),
                scores@.len() == e - s,
                forall|i: int| 0 <= i < e - s ==> #[trigger] scores@[i] == sqdist(qn@, self.centroid(l as int, s + i), sd as nat),
                all == self.scored_level(qn@, None, l as int, range_ids(s as int, e as int)),
                nd@ == old(nd)@ + all.take(c - s),
            decreases e - c,
        {
            let ghost i = c - s;
            proof {
                assert(scores@[i] == sqdist(qn@, self.centroid(l as int, s + i), sd as nat));
                lemma_sqdist_bound(qn@, self.centroid(l as int, c as int), sd as nat);
            }
            let base: i32 = scores[c - s];
            let v: i32 = if biased {
                assert(65025 * self.d + self.gbias@[c as int] <= i32::MAX);
                base + self.gbias[c]
            } else {
                base
            };
            assert(all[i] == (v, c as u32));
            assert(nd@.push((v, c as u32)) =~= old(nd)@ + all.take(i + 1));
            nd.push((v, c as u32));
            c = c + 1;
        }
        assert(all.take(e - s) =~= all);
    }

    /// The scored children of the selected cells of level `l - 1`.
    fn expand_level(&self, qn: &[i8], qnorm: i32, l: usize, sel: &Vec<u32>, lut: Option<&Vec<i8>>) -> (nd: Vec<(i32, u32)>)
        requires
            self.wf(),
            qn@.len() == self.d,
            qnorm == sqnorm(qn@),
            1 <= l < self.levels,
            forall|i: int| 0 <= i < sel@.len() ==> #[trigger] sel@[i] < self.count(l - 1),
            lut matches Some(t) ==> self.radc is Some && t@.len() >= self.adc_m() * 16,
        ensures
            nd@ == self.scored_level(qn@, (match lut { Some(t) => Some(t@), None => None }), l as int, children(self.child@[l - 1]@, sel@, sel@.len())),
    {
        let ghost gl: Option<Seq<i8>> = match lut {
            Some(t) => Some(t@),
            None => None,
        };
        let mut nd: Vec<(i32, u32)> = Vec::new();
        let mut i: usize = 0;
        let ghost child = self.child@[l - 1]@;
        assert(self.tree_ok(l - 1));
        assert(nd@ =~= self.scored_level(qn@, gl, l as int, children(child, sel@, 0)));
        while i < sel.len()
            invariant
                i <= sel@.len(),
                self.wf(),
                qn@.len() == self.d,
                qnorm == sqnorm(qn@),
                1 <= l < self.levels,
                child == self.child@[l - 1]@,
                self.tree_ok(l - 1),
                forall|x: int| 0 <= x < sel@.len() ==> #[trigger] sel@[x] < self.count(l - 1),
                gl == (match lut { Some(t) => Some(t@), None => None::<Seq<i8>> }),
                lut matches Some(t) ==> self.radc is Some && t@.len() >= self.adc_m() * 16,
                nd@ == self.scored_level(qn@, gl, l as int, children(child, sel@, i as nat)),
            decreases sel@.len() - i,
        {
            let p: usize = sel[i] as usize;
            assert(sel@[i as int] < self.count(l - 1));
            let clen: usize = self.child[l - 1].len();
            let s: usize = self.child[l - 1][p] as usize;
            let e: usize = self.child[l - 1][p + 1] as usize;
            assert(child[p as int] <= child[p + 1]);
            assert(child[p + 1] <= self.count(l as int));
            let ghost prev = children(child, sel@, i as nat);
            let ghost add = range_ids(s as int, e as int);
            match lut {
                Some(t) => {
                    if l == self.levels - 1 {
                        self.push_code_scores(t, s, e, Ghost(qn@), &mut nd);
                    } else {
                        self.push_l2_scores(qn, qnorm, l, s, e, &mut nd);
                        assert(self.scored_level(qn@, None, l as int, add) =~= self.scored_level(qn@, gl, l as int, add));
                    }
                },
                None => {
                    self.push_l2_scores(qn, qnorm, l, s, e, &mut nd);
                },
            }
            proof {
                assert(self.scored_level(qn@, gl, l as int, prev) + self.scored_level(qn@, gl, l as int, add) =~= self.scored_level(qn@, gl, l as int, prev + add));
                assert(children(child, sel@, (i + 1) as nat) == prev + add);
            }
            i = i + 1;
        }
        nd
    }

    /// The cells of the coarsest level that the beam expands.
    fn select_coarse(&self, qn: &[i8], qnorm: i32) -> (sel: Vec<u32>)
        requires
            self.wf(),
            qn@.len() == self.d,
            qnorm == sqnorm(qn@),
        ensures
            sel@ == self.coarse_sel(qn@, None),
    {
        let d: usize = self.d;
        let l0: usize = self.cent[0].len() / d;
        assert(self.level_ok(0));
        let sd0: usize = if self.knobs.sdim0 > 0 && self.knobs.sdim0 < d { self.knobs.sdim0 } else { d };
        let scores = self.level_l2(qn, qnorm, 0, 0, l0, sd0);
        let mut cd: Vec<(i32, u32)> = Vec::with_capacity(l0);
        let mut q: usize = 0;
        while q < l0
            invariant
                q <= l0,
                l0 == self.count(0),
                l0 <= u32::MAX,
                scores@.len() == l0,
                sd0 == dims_used(self.knobs.sdim0 as nat, self.d as nat),
                forall|i: int| 0 <= i < l0 ==> #[trigger] scores@[i] == sqdist(qn@, self.centroid(0, 0 + i), sd0 as nat),
                cd@.len() == q,
                forall|i: int| 0 <= i < q ==> #[trigger] cd@[i] == self.coarse_scores(qn@)[i],
            decreases l0 - q,
        {
            assert(scores@[q as int] == sqdist(qn@, self.centroid(0, 0 + q), sd0 as nat));
            cd.push((scores[q], q as u32));
            q = q + 1;
        }
        assert(cd@ =~= self.coarse_scores(qn@));
        let b: usize = if self.knobs.beam0 > 0 { self.knobs.beam0 } else { self.beam[0] };
        if b == 0 {
            sort_ascending(&mut cd);
        } else {
            keep_smallest(&mut cd, b);
        }
        crate::router::take_all_ids(&cd)
    }

    /// Descend the tree: expand the best cells of each level, and return every scored finest cell
    /// that is reached. `coarse` are cells of the coarsest level chosen elsewhere; `lut` scores the
    /// finest level from codes.
    pub fn gather_fine(&self, qn: &[i8], coarse: Option<&Vec<u32>>, lut: Option<&Vec<i8>>) -> (fd: Vec<(i32, u32)>)
        requires
            self.wf(),
            self.inputs_ok(
                qn@,
                (match coarse { Some(c) => Some(c@), None => None }),
                (match lut { Some(t) => Some(t@), None => None }),
            ),
        ensures
            fd@ == self.gathered(
                qn@,
                (match coarse { Some(c) => Some(c@), None => None }),
                (match lut { Some(t) => Some(t@), None => None }),
            ),
    {
        let ghost gc: Option<Seq<u32>> = match coarse {
            Some(c) => Some(c@),
            None => None,
        };
        let ghost gl: Option<Seq<i8>> = match lut {
            Some(t) => Some(t@),
            None => None,
        };
        let qnorm: i32 = sqnorm_i8(qn);
        let mut sel: Vec<u32> = match coarse {
            Some(c) => crate::hier::copy_ids(c),
            None => self.select_coarse(qn, qnorm),
        };
        let mut l: usize = 1;
        while l < self.levels - 1
            invariant
                1 <= l <= self.levels - 1,
                self.wf(),
                self.inputs_ok(qn@, gc, gl),
                qnorm == sqnorm(qn@),
                gl == (match lut { Some(t) => Some(t@), None => None::<Seq<i8>> }),
                sel@ == self.frontier(qn@, gc, gl, (l - 1) as nat),
            decreases self.levels - l,
        {
            proof {
                lemma_frontier_below(*self, qn@, gc, gl, (l - 1) as nat);
            }
            let mut nd = self.expand_level(qn, qnorm, l, &sel, lut);
            let b: usize = self.beam[l];
            if b == 0 {
                sort_ascending(&mut nd);
            } else {
                keep_smallest(&mut nd, b);
            }
            sel = crate::router::take_all_ids(&nd);
            l = l + 1;
        }
        proof {
            lemma_frontier_below(*self, qn@, gc, gl, (l - 1) as nat);
        }
        let mut nd = self.expand_level(qn, qnorm, l, &sel, lut);
        if lut.is_some() && self.knobs.adc_keep > 0 {
            keep_smallest(&mut nd, self.knobs.adc_keep);
            let kept = nd;
            let mut out: Vec<(i32, u32)> = Vec::with_capacity(kept.len());
            let lv = self.cent[l].as_slice();
            let len: usize = lv.len();
            proof {
                lemma_gathered_below(*self, qn@, gc, gl);
            }
            let ghost want = self.gathered(qn@, gc, gl);
            assert(want.len() == kept@.len());
            let mut i: usize = 0;
            while i < kept.len()
                invariant
                    i <= kept@.len(),
                    self.wf(),
                    qn@.len() == self.d,
                    l == self.levels - 1,
                    lv@ == self.cent@[l as int]@,
                    len == lv@.len(),
                    want.len() == kept@.len(),
                    forall|x: int| 0 <= x < want.len() ==> (#[trigger] want[x]).1 < self.kf,
                    forall|x: int| 0 <= x < want.len() ==> (#[trigger] want[x]) == (l2(qn@, self.centroid(l as int, kept@[x].1 as int)) as i32, kept@[x].1),
                    out@ == want.take(i as int),
                decreases kept@.len() - i,
            {
                let c: usize = kept[i].1 as usize;
                proof {
                    assert(want[i as int].1 < self.kf);
                    assert(self.level_ok(l as int));
                    lemma_row_in_range(c as int, self.d as int, self.kf as int, len as int);
                }
                let dist: i32 = l2_i8(qn, slice_subrange(lv, c * self.d, c * self.d + self.d));
                out.push((dist, kept[i].1));
                assert(out@ =~= want.take(i + 1));
                i = i + 1;
            }
            assert(want.take(want.len() as int) =~= want);
            return out;
        }
        nd
    }

    /// The `k` best finest cells, best first.
    pub open spec fn routed(&self, qn: Seq<i8>, coarse: Option<Seq<u32>>, lut: Option<Seq<i8>>, k: nat) -> Seq<u32> {
        ids_of(smallest(self.gathered(qn, coarse, lut), k))
    }

    /// The `k` best finest cells for a normalised vector.
    pub fn route_fine(&self, qn: &[i8], coarse: Option<&Vec<u32>>, lut: Option<&Vec<i8>>, k: usize) -> (out: Vec<u32>)
        requires
            self.wf(),
            self.inputs_ok(
                qn@,
                (match coarse { Some(c) => Some(c@), None => None }),
                (match lut { Some(t) => Some(t@), None => None }),
            ),
        ensures
            out@ == self.routed(
                qn@,
                (match coarse { Some(c) => Some(c@), None => None }),
                (match lut { Some(t) => Some(t@), None => None }),
                k as nat,
            ),
            forall|i: int| 0 <= i < out@.len() ==> #[trigger] out@[i] < self.kf,
    {
        let ghost gc: Option<Seq<u32>> = match coarse {
            Some(c) => Some(c@),
            None => None,
        };
        let ghost gl: Option<Seq<i8>> = match lut {
            Some(t) => Some(t@),
            None => None,
        };
        let mut fd = self.gather_fine(qn, coarse, lut);
        keep_smallest(&mut fd, k);
        proof {
            let g = self.gathered(qn@, gc, gl);
            lemma_gathered_below(*self, qn@, gc, gl);
            lemma_smallest(g, k as nat);
            assert forall|i: int| 0 <= i < fd@.len() implies (#[trigger] fd@[i]).1 < self.kf by {
                assert(g.contains(fd@[i]));
                let x = choose|x: int| 0 <= x < g.len() && g[x] == fd@[i];
                assert(g[x].1 < self.kf);
            }
        }
        crate::router::take_all_ids(&fd)
    }
}

/// A copy of a list of ids.
pub fn copy_ids(v: &Vec<u32>) -> (r: Vec<u32>)
    ensures
        r@ == v@,
{
    let mut out: Vec<u32> = Vec::with_capacity(v.len());
    let mut i: usize = 0;
    while i < v.len()
        invariant
            i <= v@.len(),
            out@ == v@.take(i as int),
        decreases v@.len() - i,
    {
        out.push(v[i]);
        i = i + 1;
        assert(out@ =~= v@.take(i as int));
    }
    assert(v@.take(v@.len() as int) =~= v@);
    out
}

/// The bits spell a single of more than zero, an infinite one included.
pub open spec fn positive_single(bits: u32) -> bool {
    0 < bits <= 0x7f80_0000
}

impl Router for HierRouter {
    open spec fn cells(&self) -> nat {
        self.kf as nat
    }

    open spec fn ready(&self) -> bool {
        self.wf() && self.kf >= 1
    }

    open spec fn takes(&self, q: Seq<i8>, qn: Seq<i8>) -> bool {
        qn.len() == self.d
    }

    /// A router of positive spill weight chooses the further cells of a point by their losses: see
    /// [`crate::spill::spill`].
    open spec fn allows(&self, a0: nat) -> bool {
        a0 >= 2 ==> !positive_single(self.soar)
    }

    /// The `a0` best cells, filled up with cell 0.
    open spec fn assigned(&self, q: Seq<i8>, qn: Seq<i8>, a0: nat) -> Seq<u32> {
        let near = self.routed(qn, None, None, a0);
        Seq::new(if near.len() < a0 { a0 } else { near.len() }, |i: int| if i < near.len() { near[i] } else { 0 })
    }

    open spec fn probed(&self, q: Seq<i8>, qn: Seq<i8>, p: nat) -> Seq<u32> {
        self.routed(qn, None, None, p)
    }

    fn n_cells(&self) -> (r: usize) {
        self.kf
    }

    fn assign(&self, q: &[i8], qn: &[i8], a0: usize, out: &mut Vec<u32>) {
        let near = self.route_fine(qn, None, None, a0);
        let ghost s = near@;
        *out = near;
        while out.len() < a0
            invariant
                s.len() <= out@.len(),
                out@.len() <= a0 || out@.len() == s.len(),
                self.kf >= 1,
                forall|i: int| 0 <= i < s.len() ==> #[trigger] s[i] < self.kf,
                forall|i: int| 0 <= i < out@.len() ==> #[trigger] out@[i] == if i < s.len() { s[i] } else { 0 },
            decreases a0 - out@.len(),
        {
            out.push(0);
        }
        assert(out@ =~= self.assigned(q@, qn@, a0 as nat));
    }

    fn probe(&self, q: &[i8], qn: &[i8], p: usize) -> (r: Vec<u32>) {
        self.route_fine(qn, None, None, p)
    }
}

} // verus!
