//! Checks that a router taken up from an image is sound, and the constants that are derived from it.
use vstd::prelude::*;
use vstd::slice::slice_subrange;
use crate::hier::{HierRouter, RouteKnobs};
use crate::image::RouterImage;
use crate::pq::MAX_M;
use crate::simd::{cadj, cadj_i8, row_of, L2_DIM};

verus! {

/// Rows of a level.
pub open spec fn level_rows(level: Seq<i8>, d: nat) -> nat {
    if d > 0 {
        level.len() / d
    } else {
        0
    }
}

/// The per-centroid constants of the norm-decomposition kernel, level by level.
pub fn cadj_of(cent: &Vec<Vec<i8>>, d: usize) -> (r: Vec<Vec<i32>>)
    requires
        d <= L2_DIM,
    ensures
        r@.len() == cent@.len(),
        forall|l: int| 0 <= l < r@.len() ==> (#[trigger] r@[l])@.len() == level_rows(cent@[l]@, d as nat),
        forall|l: int, c: int| 0 <= l < r@.len() && 0 <= c < r@[l]@.len() ==> #[trigger] r@[l]@[c] == cadj(row_of(cent@[l]@, d as nat, c)),
{
    let n: usize = cent.len();
    let ghost dn = d as nat;
    let mut out: Vec<Vec<i32>> = Vec::with_capacity(n);
    let mut l: usize = 0;
    while l < n
        invariant
            l <= n,
            n == cent@.len(),
            d <= L2_DIM,
            dn == d,
            out@.len() == l,
            forall|e: int| 0 <= e < l ==> (#[trigger] out@[e])@.len() == level_rows(cent@[e]@, dn),
            forall|e: int, c: int| 0 <= e < l && 0 <= c < out@[e]@.len() ==> #[trigger] out@[e]@[c] == cadj(row_of(cent@[e]@, dn, c)),
        decreases n - l,
    {
        let len: usize = cent[l].len();
        let m: usize = if d > 0 { len / d } else { 0 };
        let mut row: Vec<i32> = Vec::with_capacity(m);
        let ghost level = cent@[l as int]@;
        let mut j: usize = 0;
        while j < m
            invariant
                j <= m,
                l < n,
                n == cent@.len(),
                level == cent@[l as int]@,
                len == level.len(),
                d <= L2_DIM,
                dn == d,
                m > 0 ==> d > 0 && m == len / d,
                row@.len() == j,
                forall|c: int| 0 <= c < j ==> #[trigger] row@[c] == cadj(row_of(level, dn, c)),
            decreases m - j,
        {
            proof {
                lemma_whole_rows(len as int, d as int, m as int, j as int);
            }
            row.push(cadj_i8(slice_subrange(cent[l].as_slice(), j * d, j * d + d)));
            j = j + 1;
        }
        out.push(row);
        l = l + 1;
    }
    out
}

/// Row `j` of the whole rows of a matrix lies inside it.
proof fn lemma_whole_rows(len: int, d: int, m: int, j: int)
    requires
        d > 0,
        len >= 0,
        m == len / d,
        0 <= j < m,
    ensures
        0 <= j * d,
        j * d + d <= len,
{
    assert(0 <= j * d && j * d + d <= m * d) by (nonlinear_arith)
        requires
            d > 0,
            0 <= j < m,
    ;
    assert(m * d <= len) by (nonlinear_arith)
        requires
            m == len / d,
            d > 0,
            len >= 0,
    ;
}

impl HierRouter {
    fn check_level(&self, l: usize) -> (r: bool)
        requires
            self.d > 0,
            l < self.cent@.len(),
        ensures
            r == self.level_ok(l as int),
    {
        let len: usize = self.cent[l].len();
        let n: usize = len / self.d;
        let ghost d = self.d as int;
        proof {
            assert((len as int % d == 0) == (len as int == (len as int / d) * d)) by {
                vstd::arithmetic::div_mod::lemma_fundamental_div_mod(len as int, d);
                assert(d * (len as int / d) == (len as int / d) * d) by (nonlinear_arith);
            }
        }
        len % self.d == 0 && n <= 0xffff_ffff
    }

    fn check_tree(&self, l: usize) -> (r: bool)
        requires
            self.d > 0,
            l + 1 < self.cent@.len(),
            l < self.child@.len(),
        ensures
            r == self.tree_ok(l as int),
    {
        let ghost child = self.child@[l as int]@;
        let n: usize = self.child[l].len();
        let levels: usize = self.cent.len();
        let count: usize = self.cent[l].len() / self.d;
        let next: usize = self.cent[l + 1].len() / self.d;
        if n == 0 || n - 1 != count {
            return false;
        }
        let mut i: usize = 0;
        while i < n
            invariant
                i <= n,
                self.d > 0,
                l + 1 < self.cent@.len(),
                l < self.child@.len(),
                child == self.child@[l as int]@,
                n == child.len(),
                next == self.count(l + 1),
                forall|a: int, b: int| 0 <= a <= b < i ==> #[trigger] child[a] <= #[trigger] child[b],
                forall|a: int| 0 <= a < i ==> #[trigger] child[a] <= next,
            decreases n - i,
        {
            let x: u32 = self.child[l][i];
            if x as usize > next {
                assert(child[i as int] > self.count(l + 1));
                return false;
            }
            if i > 0 && self.child[l][i - 1] > x {
                assert(child[i - 1] > child[i as int]);
                return false;
            }
            proof {
                assert forall|a: int, b: int| 0 <= a <= b < i + 1 implies #[trigger] child[a] <= #[trigger] child[b] by {
                    if b == i && a < i {
                        assert(child[a] <= child[i - 1]);
                    }
                }
            }
            i = i + 1;
        }
        true
    }

    fn check_cadj(&self, l: usize) -> (r: bool)
        requires
            0 < self.d <= L2_DIM,
            l < self.cent@.len(),
            l < self.cadj@.len(),
            self.level_ok(l as int),
        ensures
            r == self.cadj_ok(l as int),
    {
        let len: usize = self.cent[l].len();
        let count: usize = len / self.d;
        let n: usize = self.cadj[l].len();
        if n != count {
            return false;
        }
        let d: usize = self.d;
        let mut i: usize = 0;
        while i < n
            invariant
                i <= n,
                d == self.d,
                0 < d <= L2_DIM,
                l < self.cent@.len(),
                l < self.cadj@.len(),
                len == self.cent@[l as int]@.len(),
                count == len / d,
                n == count,
                n == self.count(l as int),
                n == self.cadj@[l as int]@.len(),
                forall|c: int| 0 <= c < i ==> #[trigger] self.cadj@[l as int]@[c] == cadj(self.centroid(l as int, c)),
            decreases n - i,
        {
            proof {
                lemma_whole_rows(len as int, d as int, count as int, i as int);
            }
            let want: i32 = cadj_i8(slice_subrange(self.cent[l].as_slice(), i * d, i * d + d));
            if self.cadj[l][i] != want {
                assert(self.cadj@[l as int]@[i as int] != cadj(self.centroid(l as int, i as int)));
                return false;
            }
            i = i + 1;
        }
        true
    }

    fn check_codes(&self) -> (r: bool)
        ensures
            r == self.codes_ok(),
    {
        let m: usize = match &self.radc {
            Some(p) => p.m,
            None => 0,
        };
        if m % 2 != 0 || m > MAX_M {
            return false;
        }
        let len: usize = self.rcodes.len();
        let fits = match self.kf.checked_mul(m) {
            Some(total) => total == len,
            None => false,
        };
        if !fits {
            return false;
        }
        let mut i: usize = 0;
        while i < len
            invariant
                i <= len,
                len == self.rcodes@.len(),
                forall|k: int| 0 <= k < i ==> #[trigger] self.rcodes@[k] < 16,
            decreases len - i,
        {
            if self.rcodes[i] >= 16 {
                assert(self.rcodes@[i as int] >= 16);
                return false;
            }
            i = i + 1;
        }
        if self.kf % 16 != 0 || self.rblocks.len() == 0 {
            true
        } else {
            self.check_blocks(m)
        }
    }

    fn check_blocks(&self, m: usize) -> (r: bool)
        requires
            m == self.adc_m(),
            m <= MAX_M,
            m % 2 == 0,
            self.kf % 16 == 0,
            self.rcodes@.len() == self.kf * m,
        ensures
            r == self.blocks_ok(),
    {
        let half: usize = m / 2;
        let nb: usize = self.kf / 16;
        let blen: usize = self.rblocks.len();
        let clen: usize = self.rcodes.len();
        let fits = match nb.checked_mul(half * 16) {
            Some(total) => total == blen,
            None => false,
        };
        if !fits {
            return false;
        }
        let mut b: usize = 0;
        while b < nb
            invariant
                b <= nb,
                m == self.adc_m(),
                m <= MAX_M,
                m % 2 == 0,
                half == m / 2,
                self.kf % 16 == 0,
                nb == self.kf / 16,
                blen == self.rblocks@.len(),
                clen == self.rcodes@.len(),
                clen == self.kf * m,
                blen == nb * (half * 16),
                forall|e: int, g: int, i: int| 0 <= e < b && 0 <= g < half && 0 <= i < 16 ==> (#[trigger] self.packed_at(e, g, i)) % 16 == self.rcodes@[(16 * e + i) * m + 2 * g] && self.packed_at(e, g, i) / 16 == self.rcodes@[(16 * e + i) * m + 2 * g + 1],
            decreases nb - b,
        {
            let mut g: usize = 0;
            while g < half
                invariant
                    g <= half,
                    b < nb,
                    m == self.adc_m(),
                    m <= MAX_M,
                    m % 2 == 0,
                    half == m / 2,
                    self.kf % 16 == 0,
                    nb == self.kf / 16,
                    blen == self.rblocks@.len(),
                    clen == self.rcodes@.len(),
                    clen == self.kf * m,
                    blen == nb * (half * 16),
                    forall|e: int, h: int, i: int| 0 <= e < b && 0 <= h < half && 0 <= i < 16 ==> (#[trigger] self.packed_at(e, h, i)) % 16 == self.rcodes@[(16 * e + i) * m + 2 * h] && self.packed_at(e, h, i) / 16 == self.rcodes@[(16 * e + i) * m + 2 * h + 1],
                    forall|h: int, i: int| 0 <= h < g && 0 <= i < 16 ==> (#[trigger] self.packed_at(b as int, h, i)) % 16 == self.rcodes@[(16 * b + i) * m + 2 * h] && self.packed_at(b as int, h, i) / 16 == self.rcodes@[(16 * b + i) * m + 2 * h + 1],
                decreases half - g,
            {
                let mut i: usize = 0;
                while i < 16
                    invariant
                        i <= 16,
                        g < half,
                        b < nb,
                        m == self.adc_m(),
                        m <= MAX_M,
                        m % 2 == 0,
                        half == m / 2,
                        self.kf % 16 == 0,
                        nb == self.kf / 16,
                        blen == self.rblocks@.len(),
                        clen == self.rcodes@.len(),
                        clen == self.kf * m,
                        blen == nb * (half * 16),
                        forall|e: int, h: int, k: int| 0 <= e < b && 0 <= h < half && 0 <= k < 16 ==> (#[trigger] self.packed_at(e, h, k)) % 16 == self.rcodes@[(16 * e + k) * m + 2 * h] && self.packed_at(e, h, k) / 16 == self.rcodes@[(16 * e + k) * m + 2 * h + 1],
                        forall|h: int, k: int| 0 <= h < g && 0 <= k < 16 ==> (#[trigger] self.packed_at(b as int, h, k)) % 16 == self.rcodes@[(16 * b + k) * m + 2 * h] && self.packed_at(b as int, h, k) / 16 == self.rcodes@[(16 * b + k) * m + 2 * h + 1],
                        forall|k: int| 0 <= k < i ==> (#[trigger] self.packed_at(b as int, g as int, k)) % 16 == self.rcodes@[(16 * b + k) * m + 2 * g] && self.packed_at(b as int, g as int, k) / 16 == self.rcodes@[(16 * b + k) * m + 2 * g + 1],
                    decreases 16 - i,
                {
                    proof {
                        let (bi, gi, hi, ni, ii, mi, kf) = (b as int, g as int, half as int, nb as int, i as int, m as int, self.kf as int);
                        assert(bi * hi + gi + 1 <= ni * hi && 0 <= bi * hi) by (nonlinear_arith)
                            requires
                                0 <= bi < ni,
                                0 <= gi < hi,
                        ;
                        assert(ni * (hi * 16) == (ni * hi) * 16) by (nonlinear_arith);
                        assert((16 * bi + ii) * mi + mi <= kf * mi && 0 <= (16 * bi + ii) * mi) by (nonlinear_arith)
                            requires
                                0 <= bi,
                                0 <= ii,
                                16 * bi + ii + 1 <= kf,
                                0 <= mi,
                        ;
                    }
                    let byte: u8 = self.rblocks[(b * half + g) * 16 + i];
                    assert(byte == self.packed_at(b as int, g as int, i as int));
                    let at: usize = (16 * b + i) * m + 2 * g;
                    if byte % 16 != self.rcodes[at] || byte / 16 != self.rcodes[at + 1] {
                        return false;
                    }
                    i = i + 1;
                }
                g = g + 1;
            }
            b = b + 1;
        }
        true
    }

    fn check_bias(&self) -> (r: bool)
        requires
            self.d <= L2_DIM,
        ensures
            r == (self.gbias@.len() == 0 || (self.gbias@.len() == self.kf && forall|c: int| 0 <= c < self.kf ==> 65025 * self.d + #[trigger] self.gbias@[c] <= i32::MAX)),
    {
        let n: usize = self.gbias.len();
        if n == 0 {
            return true;
        }
        if n != self.kf {
            return false;
        }
        let mut i: usize = 0;
        while i < n
            invariant
                i <= n,
                n == self.kf,
                n == self.gbias@.len(),
                self.d <= L2_DIM,
                forall|c: int| 0 <= c < i ==> 65025 * self.d + #[trigger] self.gbias@[c] <= i32::MAX,
            decreases n - i,
        {
            if 65025 * (self.d as i64) + self.gbias[i] as i64 > 0x7fff_ffff {
                assert(65025 * self.d + self.gbias@[i as int] > i32::MAX);
                return false;
            }
            i = i + 1;
        }
        true
    }

    /// Whether the router is sound.
    pub fn check(&self) -> (r: bool)
        ensures
            r == self.wf(),
    {
        if self.d == 0 || self.d > L2_DIM || self.levels < 2 {
            return false;
        }
        if self.cent.len() != self.levels || self.child.len() != self.levels || self.beam.len() != self.levels - 1 {
            return false;
        }
        let cadjs: usize = self.cadj.len();
        if cadjs != 0 && cadjs != self.levels {
            return false;
        }
        let mut l: usize = 0;
        while l < self.levels
            invariant
                l <= self.levels,
                0 < self.d <= L2_DIM,
                2 <= self.levels,
                self.cent@.len() == self.levels,
                self.child@.len() == self.levels,
                cadjs == self.cadj@.len(),
                cadjs == 0 || cadjs == self.levels,
                forall|e: int| 0 <= e < l ==> #[trigger] self.level_ok(e),
                forall|e: int| 0 <= e < l && e < self.levels - 1 ==> #[trigger] self.tree_ok(e),
                cadjs > 0 ==> forall|e: int| 0 <= e < l ==> #[trigger] self.cadj_ok(e),
            decreases self.levels - l,
        {
            if !self.check_level(l) {
                assert(!self.level_ok(l as int));
                return false;
            }
            if l < self.levels - 1 {
                if !self.check_tree(l) {
                    assert(!self.tree_ok(l as int));
                    return false;
                }
            }
            if cadjs > 0 {
                if !self.check_cadj(l) {
                    assert(!self.cadj_ok(l as int));
                    return false;
                }
            }
            l = l + 1;
        }
        let last: usize = self.cent[self.levels - 1].len() / self.d;
        if self.kf != last {
            return false;
        }
        if !self.check_bias() {
            return false;
        }
        match &self.radc {
            Some(p) => self.check_codes(),
            None => true,
        }
    }

    /// Take a router up from its stored fields. Where they do not make a sound router, the unsound
    /// one is handed back as an error.
    pub fn assemble(img: RouterImage, gbias: Vec<i32>, knobs: RouteKnobs) -> (r: Result<HierRouter, HierRouter>)
        ensures
            ({
                let h = match r {
                    Ok(h) => h,
                    Err(h) => h,
                };
                &&& (r is Ok) == h.wf()
                &&& h.parts() == img.parts()
                &&& h.gbias == gbias
                &&& h.knobs == knobs
                &&& r is Ok ==> h.cadj@.len() == h.levels
            }),
    {
        let cadj: Vec<Vec<i32>> = if img.d > L2_DIM { Vec::new() } else { cadj_of(&img.cent, img.d) };
        let h = HierRouter {
            d: img.d,
            mu: img.mu,
            kf: img.kf,
            levels: img.levels,
            cent: img.cent,
            child: img.child,
            beam: img.beam,
            soar: img.soar,
            radc: img.radc,
            rcodes: img.rcodes,
            rblocks: img.rblocks,
            cadj,
            gbias,
            cent_f16: img.cent_f16,
            knobs,
        };
        assert(h.parts() == img.parts());
        if h.check() {
            Ok(h)
        } else {
            Err(h)
        }
    }
}

} // verus!
