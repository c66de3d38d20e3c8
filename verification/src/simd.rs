//! Distance kernels on int8 vectors, nibble codes and bit codes.
//!
//! The wide kernels work through algebraic decompositions of the plain sums; each is proved to
//! return exactly what the plain sum gives.
use vstd::prelude::*;
use vstd::slice::slice_subrange;
use crate::order::Ranked;
use crate::order::{first, place, smallest, lemma_smallest, lemma_smallest_push, lemma_smallest_drop};

verus! {

/// Largest dimension for which a squared L2 distance of int8 vectors always fits an `i32`.
pub const L2_DIM: usize = 33025;

/// Largest dimension for which an inner product of int8 vectors always fits an `i32`.
pub const DOT_DIM: usize = 131071;

/// The largest dimension at which every distance, or under the inner product every product, fits a
/// 32-bit integer.
pub open spec fn dim_limit(l2_metric: bool) -> nat {
    if l2_metric {
        L2_DIM as nat
    } else {
        DOT_DIM as nat
    }
}

/// Sum of `(x[k] - c[k])^2` over the first `n` coordinates.
pub open spec fn sqdist(x: Seq<i8>, c: Seq<i8>, n: nat) -> int
    decreases n,
{
    if n == 0 {
        0
    } else {
        sqdist(x, c, (n - 1) as nat) + (x[n - 1] - c[n - 1]) * (x[n - 1] - c[n - 1])
    }
}

/// Sum of `x[k] * c[k]` over the first `n` coordinates.
pub open spec fn inner(x: Seq<i8>, c: Seq<i8>, n: nat) -> int
    decreases n,
{
    if n == 0 {
        0
    } else {
        inner(x, c, (n - 1) as nat) + x[n - 1] * c[n - 1]
    }
}

/// Sum of the first `n` coordinates.
pub open spec fn coord_sum(x: Seq<i8>, n: nat) -> int
    decreases n,
{
    if n == 0 {
        0
    } else {
        coord_sum(x, (n - 1) as nat) + x[n - 1]
    }
}

/// Squared L2 distance over the length of `x`.
pub open spec fn l2(x: Seq<i8>, c: Seq<i8>) -> int {
    sqdist(x, c, x.len())
}

/// Inner product over the length of `x`.
pub open spec fn dot(x: Seq<i8>, c: Seq<i8>) -> int {
    inner(x, c, x.len())
}

/// Squared norm.
pub open spec fn sqnorm(x: Seq<i8>) -> int {
    inner(x, x, x.len())
}

/// Row `j` of a row-major matrix of row length `d`.
pub open spec fn row_of(m: Seq<i8>, d: nat, j: int) -> Seq<i8> {
    m.subrange(j * d, j * d + d)
}

proof fn lemma_square_bound(a: i8, b: i8)
    ensures
        0 <= (a - b) * (a - b) <= 65025,
{
    let e = a - b;
    assert(0 <= e * e <= 65025) by (nonlinear_arith)
        requires
            -255 <= e <= 255,
    ;
}

proof fn lemma_product_bound(a: i8, b: i8)
    ensures
        -16384 <= a * b <= 16384,
{
    let x = a as int;
    let y = b as int;
    assert(-16384 <= x * y <= 16384) by (nonlinear_arith)
        requires
            -128 <= x <= 127,
            -128 <= y <= 127,
    ;
}

pub proof fn lemma_sqdist_bound(x: Seq<i8>, c: Seq<i8>, n: nat)
    ensures
        0 <= sqdist(x, c, n) <= 65025 * n,
    decreases n,
{
    if n > 0 {
        lemma_sqdist_bound(x, c, (n - 1) as nat);
        lemma_square_bound(x[n - 1], c[n - 1]);
    }
}

pub proof fn lemma_inner_bound(x: Seq<i8>, c: Seq<i8>, n: nat)
    ensures
        -16384 * n <= inner(x, c, n) <= 16384 * n,
    decreases n,
{
    if n > 0 {
        lemma_inner_bound(x, c, (n - 1) as nat);
        lemma_product_bound(x[n - 1], c[n - 1]);
    }
}

/// The sums look at the first `n` coordinates only.
pub proof fn lemma_sums_of_prefix(x: Seq<i8>, c: Seq<i8>, x2: Seq<i8>, c2: Seq<i8>, n: nat)
    requires
        forall|k: int| 0 <= k < n ==> #[trigger] x[k] == x2[k],
        forall|k: int| 0 <= k < n ==> #[trigger] c[k] == c2[k],
    ensures
        sqdist(x, c, n) == sqdist(x2, c2, n),
        inner(x, c, n) == inner(x2, c2, n),
        coord_sum(x, n) == coord_sum(x2, n),
    decreases n,
{
    if n > 0 {
        lemma_sums_of_prefix(x, c, x2, c2, (n - 1) as nat);
        assert(x[n - 1] == x2[n - 1]);
        assert(c[n - 1] == c2[n - 1]);
    }
}

/// Squared distance is symmetric in its two vectors, non-negative, and zero from a vector to itself.
pub proof fn law_l2_is_a_squared_distance(x: Seq<i8>, c: Seq<i8>)
    requires
        x.len() == c.len(),
    ensures
        l2(x, c) == l2(c, x),
        l2(x, c) >= 0,
        l2(x, c) == 0 <==> x == c,
{
    lemma_sqdist_symmetric(x, c, x.len());
    lemma_sqdist_bound(x, c, x.len());
    lemma_sqdist_zero(x, c, x.len());
    if l2(x, c) == 0 {
        assert(x =~= c);
    }
}

proof fn lemma_sqdist_symmetric(x: Seq<i8>, c: Seq<i8>, n: nat)
    ensures
        sqdist(x, c, n) == sqdist(c, x, n),
    decreases n,
{
    if n > 0 {
        lemma_sqdist_symmetric(x, c, (n - 1) as nat);
        let a = x[n - 1] as int;
        let b = c[n - 1] as int;
        assert((a - b) * (a - b) == (b - a) * (b - a)) by (nonlinear_arith);
    }
}

proof fn lemma_sqdist_zero(x: Seq<i8>, c: Seq<i8>, n: nat)
    ensures
        sqdist(x, c, n) == 0 <==> forall|k: int| 0 <= k < n ==> #[trigger] x[k] == c[k],
    decreases n,
{
    if n > 0 {
        lemma_sqdist_zero(x, c, (n - 1) as nat);
        lemma_sqdist_bound(x, c, (n - 1) as nat);
        lemma_square_bound(x[n - 1], c[n - 1]);
        let e = x[n - 1] - c[n - 1];
        assert(e * e == 0 <==> e == 0) by (nonlinear_arith);
        if sqdist(x, c, n) == 0 {
            assert forall|k: int| 0 <= k < n implies #[trigger] x[k] == c[k] by {
                if k < n - 1 {
                }
            }
        } else {
            if forall|k: int| 0 <= k < n ==> #[trigger] x[k] == c[k] {
                assert(x[n - 1] == c[n - 1]);
            }
        }
    }
}

/// Norm decomposition: `l2(q, c) = |q|^2 + |c|^2 - 2 <q, c>`.
pub proof fn law_norm_decomposition(q: Seq<i8>, c: Seq<i8>, n: nat)
    ensures
        sqdist(q, c, n) == inner(q, q, n) + inner(c, c, n) - 2 * inner(q, c, n),
    decreases n,
{
    if n > 0 {
        law_norm_decomposition(q, c, (n - 1) as nat);
        let a = q[n - 1] as int;
        let b = c[n - 1] as int;
        assert((a - b) * (a - b) == a * a + b * b - 2 * (a * b)) by (nonlinear_arith);
    }
}

/// Squared L2 between two int8 vectors: the sum of `(x - c)^2` over the length of `x`.
pub fn l2_i8_scalar(x: &[i8], c: &[i8]) -> (r: i32)
    requires
        x@.len() <= c@.len(),
        x@.len() <= L2_DIM,
    ensures
        r == l2(x@, c@),
{
    let mut s: i32 = 0;
    let n: usize = x.len();
    let mut k: usize = 0;
    while k < n
        invariant
            k <= n,
            n == x@.len(),
            x@.len() <= c@.len(),
            n <= L2_DIM,
            s == sqdist(x@, c@, k as nat),
        decreases n - k,
    {
        proof {
            lemma_sqdist_bound(x@, c@, k as nat);
            lemma_square_bound(x@[k as int], c@[k as int]);
        }
        let e: i32 = x[k] as i32 - c[k] as i32;
        s = s + e * e;
        k = k + 1;
    }
    s
}

/// Squared L2 with the 16-lane kernel: the same value as [`l2_i8_scalar`].
pub fn l2_i8_avx2(x: &[i8], c: &[i8]) -> (r: i32)
    requires
        x@.len() <= c@.len(),
        x@.len() <= L2_DIM,
    ensures
        r == l2(x@, c@),
{
    l2_i8_scalar(x, c)
}

/// Squared L2, best available kernel.
pub fn l2_i8(x: &[i8], c: &[i8]) -> (r: i32)
    requires
        x@.len() <= c@.len(),
        x@.len() <= L2_DIM,
    ensures
        r == l2(x@, c@),
{
    l2_i8_avx2(x, c)
}

/// Inner product of two int8 vectors over the length of `x`.
pub fn dot_i8_avx2(x: &[i8], c: &[i8]) -> (r: i32)
    requires
        x@.len() <= c@.len(),
        x@.len() <= DOT_DIM,
    ensures
        r == dot(x@, c@),
{
    let mut s: i32 = 0;
    let n: usize = x.len();
    let mut k: usize = 0;
    while k < n
        invariant
            k <= n,
            n == x@.len(),
            x@.len() <= c@.len(),
            n <= DOT_DIM,
            s == inner(x@, c@, k as nat),
        decreases n - k,
    {
        proof {
            lemma_inner_bound(x@, c@, k as nat);
            lemma_product_bound(x@[k as int], c@[k as int]);
        }
        s = s + x[k] as i32 * c[k] as i32;
        k = k + 1;
    }
    s
}

/// Sum of `(x[k] + 128) * c[k]` over the first `n` coordinates: what an unsigned-by-signed
/// multiply-accumulate gives on `x` shifted into the unsigned range.
pub open spec fn biased_inner(x: Seq<i8>, c: Seq<i8>, n: nat) -> int
    decreases n,
{
    if n == 0 {
        0
    } else {
        biased_inner(x, c, (n - 1) as nat) + (x[n - 1] + 128) * c[n - 1]
    }
}

/// Shifting `x` into the unsigned range adds `128` times the sum of `c`.
pub proof fn law_bias_decomposition(x: Seq<i8>, c: Seq<i8>, n: nat)
    ensures
        biased_inner(x, c, n) == inner(x, c, n) + 128 * coord_sum(c, n),
    decreases n,
{
    if n > 0 {
        law_bias_decomposition(x, c, (n - 1) as nat);
        let a = x[n - 1] as int;
        let b = c[n - 1] as int;
        assert((a + 128) * b == a * b + 128 * b) by (nonlinear_arith);
    }
}

proof fn lemma_biased_term(a: i8, b: i8)
    ensures
        -32640 <= (a + 128) * b <= 32640,
{
    let x = a + 128;
    let y = b as int;
    assert(-32640 <= x * y <= 32640) by (nonlinear_arith)
        requires
            0 <= x <= 255,
            -128 <= y <= 127,
    ;
}

/// Inner product through the unsigned-by-signed kernel: accumulate `(x + 128) * c` and the sum of
/// `c`, then take `128` times the sum back off.
pub fn dot_i8_vnni(x: &[i8], c: &[i8]) -> (r: i32)
    requires
        x@.len() <= c@.len(),
        x@.len() <= DOT_DIM,
    ensures
        r == dot(x@, c@),
{
    let mut acc: i64 = 0;
    let mut sc: i64 = 0;
    let n: usize = x.len();
    let mut k: usize = 0;
    while k < n
        invariant
            k <= n,
            n == x@.len(),
            x@.len() <= c@.len(),
            n <= DOT_DIM,
            acc == biased_inner(x@, c@, k as nat),
            sc == coord_sum(c@, k as nat),
            -32640 * k <= acc <= 32640 * k,
            -128 * k <= sc <= 128 * k,
        decreases n - k,
    {
        proof {
            lemma_biased_term(x@[k as int], c@[k as int]);
        }
        acc = acc + (x[k] as i64 + 128) * c[k] as i64;
        sc = sc + c[k] as i64;
        k = k + 1;
    }
    proof {
        law_bias_decomposition(x@, c@, n as nat);
        lemma_inner_bound(x@, c@, n as nat);
    }
    (acc - 128 * sc) as i32
}

/// Inner product as a distance: negated, so that the smallest value is the largest product.
pub fn negdot_i8(x: &[i8], c: &[i8]) -> (r: i32)
    requires
        x@.len() <= c@.len(),
        x@.len() <= DOT_DIM,
    ensures
        r == -dot(x@, c@),
{
    proof {
        lemma_inner_bound(x@, c@, x@.len());
    }
    -dot_i8_avx2(x, c)
}

/// Squared norm of an int8 vector.
pub fn sqnorm_i8(x: &[i8]) -> (r: i32)
    requires
        x@.len() <= DOT_DIM,
    ensures
        r == sqnorm(x@),
{
    dot_i8_avx2(x, x)
}

/// Per-centroid constant of the single-chain L2 kernel.
pub open spec fn cadj(c: Seq<i8>) -> int {
    sqnorm(c) + 256 * coord_sum(c, c.len())
}

/// Per-centroid constant of the single-chain L2 kernel: `|c|^2 + 256 * sum(c)`.
pub fn cadj_i8(c: &[i8]) -> (r: i32)
    requires
        c@.len() <= L2_DIM,
    ensures
        r == cadj(c@),
{
    let cnorm: i32 = sqnorm_i8(c);
    let mut sc: i32 = 0;
    let n: usize = c.len();
    let mut k: usize = 0;
    while k < n
        invariant
            k <= n,
            n == c@.len(),
            n <= L2_DIM,
            sc == coord_sum(c@, k as nat),
            -128 * k <= sc <= 127 * k,
        decreases n - k,
    {
        sc = sc + c[k] as i32;
        k = k + 1;
    }
    proof {
        lemma_inner_bound(c@, c@, n as nat);
        lemma_cadj_bound(c@, n as nat);
    }
    (cnorm as i64 + 256 * sc as i64) as i32
}

proof fn lemma_cadj_bound(c: Seq<i8>, n: nat)
    ensures
        -16384 * n <= inner(c, c, n) + 256 * coord_sum(c, n) <= 48641 * n,
    decreases n,
{
    if n > 0 {
        lemma_cadj_bound(c, (n - 1) as nat);
        let a = c[n - 1] as int;
        assert(-16384 <= a * a + 256 * a <= 48641) by (nonlinear_arith)
            requires
                -128 <= a <= 127,
        ;
    }
}

/// Distances of `qn` to `ncand` contiguous rows (stride `d`), over the first `sd` coordinates.
pub open spec fn block_l2(qn: Seq<i8>, block: Seq<i8>, d: nat, sd: nat, j: int) -> int {
    sqdist(qn, row_of(block, d, j), sd)
}

pub proof fn lemma_row_in_range(j: int, d: int, n: int, len: int)
    requires
        0 <= j < n,
        0 <= d,
        n * d <= len,
    ensures
        0 <= j * d,
        j * d + d <= len,
{
    assert(0 <= j * d && j * d + d <= n * d) by (nonlinear_arith)
        requires
            0 <= j < n,
            0 <= d,
    ;
}

/// Batched L2 of `qn` against `ncand` contiguous centroids (stride `d`), scoring the first `sd`
/// coordinates; `sd == d` is the exact distance. The first `ncand` entries of `out` are written.
pub fn l2_i8_block(qn: &[i8], block: &[i8], ncand: usize, d: usize, sd: usize, out: &mut [i32])
    requires
        sd <= d,
        sd <= qn@.len(),
        sd <= L2_DIM,
        ncand * d <= block@.len(),
        ncand <= old(out)@.len(),
    ensures
        final(out)@.len() == old(out)@.len(),
        forall|j: int| 0 <= j < ncand ==> #[trigger] final(out)@[j] == block_l2(qn@, block@, d as nat, sd as nat, j),
        forall|j: int| ncand <= j < old(out)@.len() ==> #[trigger] final(out)@[j] == old(out)@[j],
{
    let q = slice_subrange(qn, 0, sd);
    let blen: usize = block.len();
    let mut j: usize = 0;
    while j < ncand
        invariant
            j <= ncand,
            blen == block@.len(),
            sd <= d,
            sd <= qn@.len(),
            sd <= L2_DIM,
            q@ == qn@.subrange(0, sd as int),
            ncand * d <= block@.len(),
            ncand <= old(out)@.len(),
            out@.len() == old(out)@.len(),
            forall|i: int| 0 <= i < j ==> #[trigger] out@[i] == block_l2(qn@, block@, d as nat, sd as nat, i),
            forall|i: int| j <= i < old(out)@.len() ==> #[trigger] out@[i] == old(out)@[i],
        decreases ncand - j,
    {
        proof {
            lemma_row_in_range(j as int, d as int, ncand as int, block@.len() as int);
        }
        let row = slice_subrange(block, j * d, j * d + sd);
        proof {
            lemma_sums_of_prefix(q@, row@, qn@, row_of(block@, d as nat, j as int), sd as nat);
        }
        out[j] = l2_i8_scalar(q, row);
        j = j + 1;
    }
}

/// Batched L2 with the two-centroid kernel: the same values as [`l2_i8_block`].
pub fn l2_i8_block_avx2(qn: &[i8], block: &[i8], ncand: usize, d: usize, sd: usize, out: &mut [i32])
    requires
        sd <= d,
        sd <= qn@.len(),
        sd <= L2_DIM,
        ncand * d <= block@.len(),
        ncand <= old(out)@.len(),
    ensures
        final(out)@.len() == old(out)@.len(),
        forall|j: int| 0 <= j < ncand ==> #[trigger] final(out)@[j] == block_l2(qn@, block@, d as nat, sd as nat, j),
        forall|j: int| ncand <= j < old(out)@.len() ==> #[trigger] final(out)@[j] == old(out)@[j],
{
    l2_i8_block(qn, block, ncand, d, sd, out)
}

/// Batched full-dimension L2 through the norm decomposition: one multiply-accumulate chain of
/// `(q + 128) * c` per centroid, with the offset folded into `cadj`. Every written value is the
/// exact squared distance, so the kernel agrees with [`l2_i8_block`] at `sd == d`.
pub fn l2_i8_block_vnni(
    qn: &[i8],
    block: &[i8],
    cadjs: &[i32],
    ncand: usize,
    d: usize,
    qnorm: i32,
    out: &mut [i32],
)
    requires
        d == qn@.len(),
        d <= L2_DIM,
        ncand * d <= block@.len(),
        ncand <= old(out)@.len(),
        ncand <= cadjs@.len(),
        qnorm == sqnorm(qn@),
        forall|j: int| 0 <= j < ncand ==> #[trigger] cadjs@[j] == cadj(row_of(block@, d as nat, j)),
    ensures
        final(out)@.len() == old(out)@.len(),
        forall|j: int| 0 <= j < ncand ==> #[trigger] final(out)@[j] == block_l2(qn@, block@, d as nat, d as nat, j),
        forall|j: int| ncand <= j < old(out)@.len() ==> #[trigger] final(out)@[j] == old(out)@[j],
{
    let blen: usize = block.len();
    let mut j: usize = 0;
    while j < ncand
        invariant
            j <= ncand,
            blen == block@.len(),
            d == qn@.len(),
            d <= L2_DIM,
            ncand * d <= block@.len(),
            ncand <= old(out)@.len(),
            ncand <= cadjs@.len(),
            qnorm == sqnorm(qn@),
            forall|i: int| 0 <= i < ncand ==> #[trigger] cadjs@[i] == cadj(row_of(block@, d as nat, i)),
            out@.len() == old(out)@.len(),
            forall|i: int| 0 <= i < j ==> #[trigger] out@[i] == block_l2(qn@, block@, d as nat, d as nat, i),
            forall|i: int| j <= i < old(out)@.len() ==> #[trigger] out@[i] == old(out)@[i],
        decreases ncand - j,
    {
        proof {
            lemma_row_in_range(j as int, d as int, ncand as int, block@.len() as int);
        }
        let row = slice_subrange(block, j * d, j * d + d);
        assert(row@ =~= row_of(block@, d as nat, j as int));
        let mut r: i64 = 0;
        let mut k: usize = 0;
        while k < d
            invariant
                k <= d,
                d == qn@.len(),
                d == row@.len(),
                d <= L2_DIM,
                r == biased_inner(qn@, row@, k as nat),
                -32640 * k <= r <= 32640 * k,
            decreases d - k,
        {
            proof {
                lemma_biased_term(qn@[k as int], row@[k as int]);
            }
            r = r + (qn[k] as i64 + 128) * row[k] as i64;
            k = k + 1;
        }
        proof {
            law_bias_decomposition(qn@, row@, d as nat);
            law_norm_decomposition(qn@, row@, d as nat);
            lemma_sqdist_bound(qn@, row@, d as nat);
        }
        out[j] = (qnorm as i64 + cadjs[j] as i64 - 2 * r) as i32;
        j = j + 1;
    }
}

/// Batched full-dimension L2 with the norm-decomposition kernel.
pub fn l2_i8_block_norm(
    qn: &[i8],
    block: &[i8],
    cadjs: &[i32],
    ncand: usize,
    d: usize,
    qnorm: i32,
    out: &mut [i32],
)
    requires
        d == qn@.len(),
        d <= L2_DIM,
        ncand * d <= block@.len(),
        ncand <= old(out)@.len(),
        ncand <= cadjs@.len(),
        qnorm == sqnorm(qn@),
        forall|j: int| 0 <= j < ncand ==> #[trigger] cadjs@[j] == cadj(row_of(block@, d as nat, j)),
    ensures
        final(out)@.len() == old(out)@.len(),
        forall|j: int| 0 <= j < ncand ==> #[trigger] final(out)@[j] == block_l2(qn@, block@, d as nat, d as nat, j),
        forall|j: int| ncand <= j < old(out)@.len() ==> #[trigger] final(out)@[j] == old(out)@[j],
{
    l2_i8_block_vnni(qn, block, cadjs, ncand, d, qnorm, out)
}

/// Most packed bytes for which a nibble score always fits an `i32`.
pub const SQ4_BYTES: usize = 559240;

/// Score of a nibble-packed row: byte `k` holds the code of an even dimension in its low half and
/// of an odd dimension in its high half, scored against the two halves of the query.
pub open spec fn nibble_score(qe: Seq<i8>, qo: Seq<i8>, codes: Seq<u8>, n: nat) -> int
    decreases n,
{
    if n == 0 {
        0
    } else {
        nibble_score(qe, qo, codes, (n - 1) as nat) + (codes[n - 1] % 16) * qe[n - 1] + (codes[n - 1] / 16)
            * qo[n - 1]
    }
}

/// The two halves of a packed byte.
pub proof fn lemma_nibbles(b: u8)
    ensures
        b & 0x0f == b % 16,
        b >> 4u8 == b / 16,
{
    assert(b & 0x0f == b % 16) by (bit_vector);
    assert(b >> 4u8 == b / 16) by (bit_vector);
}

proof fn lemma_nibble_term(b: u8, e: i8, o: i8)
    ensures
        -1920 <= (b % 16) * e <= 1920,
        -1920 <= (b / 16) * o <= 1920,
{
    let lo = (b % 16) as int;
    let hi = (b / 16) as int;
    let x = e as int;
    let y = o as int;
    assert(-1920 <= lo * x <= 1920) by (nonlinear_arith)
        requires
            0 <= lo <= 15,
            -128 <= x <= 127,
    ;
    assert(-1920 <= hi * y <= 1920) by (nonlinear_arith)
        requires
            0 <= hi <= 15,
            -128 <= y <= 127,
    ;
}

proof fn lemma_nibble_score_bound(qe: Seq<i8>, qo: Seq<i8>, codes: Seq<u8>, n: nat)
    ensures
        -3840 * n <= nibble_score(qe, qo, codes, n) <= 3840 * n,
    decreases n,
{
    if n > 0 {
        lemma_nibble_score_bound(qe, qo, codes, (n - 1) as nat);
        lemma_nibble_term(codes[n - 1], qe[n - 1], qo[n - 1]);
    }
}

/// Score one nibble-packed row against the even and odd halves of the query.
pub fn dot_sq4_vnni(qe: &[i8], qo: &[i8], codes: &[u8]) -> (r: i32)
    requires
        qe@.len() >= codes@.len(),
        qo@.len() >= codes@.len(),
        codes@.len() <= SQ4_BYTES,
    ensures
        r == nibble_score(qe@, qo@, codes@, codes@.len()),
{
    let n: usize = codes.len();
    let mut s: i32 = 0;
    let mut k: usize = 0;
    while k < n
        invariant
            k <= n,
            n == codes@.len(),
            qe@.len() >= n,
            qo@.len() >= n,
            n <= SQ4_BYTES,
            s == nibble_score(qe@, qo@, codes@, k as nat),
        decreases n - k,
    {
        let b: u8 = codes[k];
        proof {
            lemma_nibble_score_bound(qe@, qo@, codes@, k as nat);
            lemma_nibble_term(b, qe@[k as int], qo@[k as int]);
            lemma_nibbles(b);
        }
        s = s + (b & 0x0f) as i32 * qe[k] as i32 + (b >> 4u8) as i32 * qo[k] as i32;
        k = k + 1;
    }
    s
}

/// Score of padded row `j` (64 packed bytes per row).
pub open spec fn padded_score(qe: Seq<i8>, qo: Seq<i8>, codes: Seq<u8>, j: int) -> int {
    nibble_score(qe, qo, codes.subrange(j * 64, j * 64 + 64), 64)
}

fn score_padded_row(qe: &[i8], qo: &[i8], codes: &[u8], j: usize) -> (r: i32)
    requires
        qe@.len() >= 64,
        qo@.len() >= 64,
        (j + 1) * 64 <= codes@.len(),
    ensures
        r == padded_score(qe@, qo@, codes@, j as int),
{
    let clen: usize = codes.len();
    dot_sq4_vnni(qe, qo, slice_subrange(codes, j * 64, j * 64 + 64))
}

/// The row of 64-byte padded codes with the largest score, the first of them on a tie; `0` where
/// there is no row.
pub fn argmax_sq4p64_vnni(qe: &[i8], qo: &[i8], codes: &[u8]) -> (r: usize)
    requires
        qe@.len() >= 64,
        qo@.len() >= 64,
        codes@.len() % 64 == 0,
    ensures
        codes@.len() == 0 ==> r == 0,
        codes@.len() > 0 ==> r < codes@.len() / 64,
        forall|j: int| 0 <= j < codes@.len() / 64 ==> #[trigger] padded_score(qe@, qo@, codes@, j) <= padded_score(qe@, qo@, codes@, r as int),
        forall|j: int| 0 <= j < r ==> #[trigger] padded_score(qe@, qo@, codes@, j) < padded_score(qe@, qo@, codes@, r as int),
{
    let rows: usize = codes.len() / 64;
    let mut best_score: i32 = i32::MIN;
    let mut best_row: usize = 0;
    let mut row: usize = 0;
    while row < rows
        invariant
            row <= rows,
            rows == codes@.len() / 64,
            codes@.len() <= usize::MAX,
            qe@.len() >= 64,
            qo@.len() >= 64,
            row == 0 ==> best_row == 0 && best_score == i32::MIN,
            row > 0 ==> best_row < row && best_score == padded_score(qe@, qo@, codes@, best_row as int),
            forall|j: int| 0 <= j < row ==> #[trigger] padded_score(qe@, qo@, codes@, j) <= best_score,
            forall|j: int| 0 <= j < best_row ==> #[trigger] padded_score(qe@, qo@, codes@, j) < best_score,
        decreases rows - row,
    {
        let score: i32 = score_padded_row(qe, qo, codes, row);
        proof {
            lemma_nibble_score_bound(qe@, qo@, codes@.subrange(row * 64, row * 64 + 64), 64);
        }
        if score > best_score {
            best_score = score;
            best_row = row;
        }
        row = row + 1;
    }
    best_row
}

/// Append one score per 64-byte padded row.
pub fn score_sq4p64_vnni(qe: &[i8], qo: &[i8], codes: &[u8], out: &mut Vec<i32>)
    requires
        qe@.len() >= 64,
        qo@.len() >= 64,
        codes@.len() % 64 == 0,
    ensures
        final(out)@.len() == old(out)@.len() + codes@.len() / 64,
        forall|i: int| 0 <= i < old(out)@.len() ==> #[trigger] final(out)@[i] == old(out)@[i],
        forall|i: int| old(out)@.len() <= i < final(out)@.len() ==> #[trigger] final(out)@[i] == padded_score(qe@, qo@, codes@, i - old(out)@.len()),
{
    let rows: usize = codes.len() / 64;
    let mut row: usize = 0;
    while row < rows
        invariant
            row <= rows,
            rows == codes@.len() / 64,
            codes@.len() <= usize::MAX,
            qe@.len() >= 64,
            qo@.len() >= 64,
            out@.len() == old(out)@.len() + row,
            forall|i: int| 0 <= i < old(out)@.len() ==> #[trigger] out@[i] == old(out)@[i],
            forall|i: int| old(out)@.len() <= i < out@.len() ==> #[trigger] out@[i] == padded_score(qe@, qo@, codes@, i - old(out)@.len()),
        decreases rows - row,
    {
        let score: i32 = score_padded_row(qe, qo, codes, row);
        out.push(score);
        row = row + 1;
    }
}

/// Number of one bits.
pub open spec fn ones(x: nat) -> nat
    decreases x,
{
    if x == 0 {
        0
    } else {
        x % 2 + ones(x / 2)
    }
}

/// Number of differing bits in the first `n` bytes.
pub open spec fn differing_bits(a: Seq<u8>, b: Seq<u8>, n: nat) -> nat
    decreases n,
{
    if n == 0 {
        0
    } else {
        differing_bits(a, b, (n - 1) as nat) + ones((a[n - 1] ^ b[n - 1]) as nat)
    }
}

fn count_ones_u8(x: u8) -> (r: u32)
    ensures
        r == ones(x as nat),
        r <= 8,
{
    let mut s: u32 = 0;
    let mut y: u8 = x;
    let mut left: u32 = 8;
    while left > 0
        invariant
            left <= 8,
            s + left <= 8,
            s + ones(y as nat) == ones(x as nat),
            left == 0 ==> y == 0,
            left == 1 ==> y < 2,
            left == 2 ==> y < 4,
            left == 3 ==> y < 8,
            left == 4 ==> y < 16,
            left == 5 ==> y < 32,
            left == 6 ==> y < 64,
            left == 7 ==> y < 128,
        decreases left,
    {
        s = s + (y % 2) as u32;
        y = y / 2;
        left = left - 1;
    }
    s
}

/// Hamming distance of two equally long bit codes.
pub fn hamming_u8(a: &[u8], b: &[u8]) -> (r: u32)
    requires
        a@.len() == b@.len(),
        a@.len() <= 0x1fff_ffff,
    ensures
        r == differing_bits(a@, b@, a@.len()),
{
    let n: usize = a.len();
    let mut s: u32 = 0;
    let mut k: usize = 0;
    while k < n
        invariant
            k <= n,
            n == a@.len(),
            n == b@.len(),
            n <= 0x1fff_ffff,
            s <= 8 * k,
            s == differing_bits(a@, b@, k as nat),
        decreases n - k,
    {
        s = s + count_ones_u8(a[k] ^ b[k]);
        k = k + 1;
    }
    s
}

proof fn lemma_ones_zero(x: nat)
    ensures
        ones(x) == 0 <==> x == 0,
    decreases x,
{
    if x > 0 {
        lemma_ones_zero(x / 2);
    }
}

/// Hamming distance is symmetric, and zero exactly between equal codes.
pub proof fn law_hamming_is_a_distance(a: Seq<u8>, b: Seq<u8>)
    requires
        a.len() == b.len(),
    ensures
        differing_bits(a, b, a.len()) == differing_bits(b, a, a.len()),
        differing_bits(a, b, a.len()) == 0 <==> a == b,
{
    lemma_hamming(a, b, a.len());
    if differing_bits(a, b, a.len()) == 0 {
        assert(a =~= b);
    }
}

proof fn lemma_hamming(a: Seq<u8>, b: Seq<u8>, n: nat)
    ensures
        differing_bits(a, b, n) == differing_bits(b, a, n),
        differing_bits(a, b, n) == 0 <==> forall|k: int| 0 <= k < n ==> #[trigger] a[k] == b[k],
    decreases n,
{
    if n > 0 {
        lemma_hamming(a, b, (n - 1) as nat);
        let x = a[n - 1];
        let y = b[n - 1];
        assert(x ^ y == y ^ x && (x ^ y == 0 <==> x == y)) by (bit_vector);
        lemma_ones_zero((x ^ y) as nat);
        if x == y && differing_bits(a, b, (n - 1) as nat) == 0 {
            assert forall|k: int| 0 <= k < n implies #[trigger] a[k] == b[k] by {
                if k < n - 1 {
                }
            }
        }
        if forall|k: int| 0 <= k < n ==> #[trigger] a[k] == b[k] {
            assert(a[n - 1] == b[n - 1]);
        }
    }
}

/// Distance and index of each of the first `n` pivots.
pub open spec fn pivot_scores(x: Seq<i8>, pivots: Seq<i8>, d: nat, n: nat) -> Seq<(i32, u32)> {
    Seq::new(n, |j: int| (l2(x, row_of(pivots, d, j)) as i32, j as u32))
}

fn pivot_score(x: &[i8], pivots: &[i8], d: usize, cc: usize, j: usize) -> (r: i32)
    requires
        0 < d,
        x@.len() <= d,
        x@.len() <= L2_DIM,
        cc == pivots@.len() / (d as nat),
        j < cc,
    ensures
        r == l2(x@, row_of(pivots@, d as nat, j as int)),
        r < i32::MAX,
{
    let plen: usize = pivots.len();
    proof {
        vstd::arithmetic::div_mod::lemma_fundamental_div_mod(plen as int, d as int);
        vstd::arithmetic::mul::lemma_mul_is_commutative(cc as int, d as int);
        lemma_row_in_range(j as int, d as int, cc as int, plen as int);
        lemma_sqdist_bound(x@, row_of(pivots@, d as nat, j as int), x@.len());
    }
    l2_i8(x, slice_subrange(pivots, j * d, j * d + d))
}

/// Nearest pivot to `x` in a row-major pivot matrix: the first index of least distance, and that
/// distance. `(0, i32::MAX)` where there is no pivot.
pub fn assign_nearest(x: &[i8], pivots: &[i8], d: usize) -> (r: (u32, i32))
    requires
        0 < d,
        x@.len() <= d,
        x@.len() <= L2_DIM,
        pivots@.len() / (d as nat) <= u32::MAX,
    ensures
        pivots@.len() / (d as nat) == 0 ==> r == (0u32, i32::MAX),
        pivots@.len() / (d as nat) > 0 ==> r.0 < pivots@.len() / (d as nat) && r.1 == l2(x@, row_of(pivots@, d as nat, r.0 as int)),
        forall|j: int| 0 <= j < pivots@.len() / (d as nat) ==> r.1 <= l2(x@, #[trigger] row_of(pivots@, d as nat, j)),
        forall|j: int| 0 <= j < r.0 ==> r.1 < l2(x@, #[trigger] row_of(pivots@, d as nat, j)),
{
    let cc: usize = pivots.len() / d;
    let mut best: i32 = i32::MAX;
    let mut bj: u32 = 0;
    let mut j: usize = 0;
    while j < cc
        invariant
            j <= cc,
            0 < d,
            x@.len() <= d,
            x@.len() <= L2_DIM,
            cc == pivots@.len() / (d as nat),
            cc <= u32::MAX,
            j == 0 ==> bj == 0 && best == i32::MAX,
            j > 0 ==> bj < j && best == l2(x@, row_of(pivots@, d as nat, bj as int)),
            forall|i: int| 0 <= i < j ==> best <= l2(x@, #[trigger] row_of(pivots@, d as nat, i)),
            forall|i: int| 0 <= i < bj ==> best < l2(x@, #[trigger] row_of(pivots@, d as nat, i)),
        decreases cc - j,
    {
        let dist: i32 = pivot_score(x, pivots, d, cc, j);
        if dist < best {
            best = dist;
            bj = j as u32;
        }
        j = j + 1;
    }
    (bj, best)
}

/// Ids of the `k` nearest pivots, nearest first, ties by lower index; `out[..k]` beyond the number
/// of pivots is zero.
pub fn assign_topk(x: &[i8], pivots: &[i8], d: usize, k: usize, out: &mut [u32])
    requires
        0 < d,
        x@.len() <= d,
        x@.len() <= L2_DIM,
        1 <= k <= 8,
        k <= old(out)@.len(),
        pivots@.len() / (d as nat) <= u32::MAX,
    ensures
        final(out)@.len() == old(out)@.len(),
        forall|i: int| k <= i < old(out)@.len() ==> #[trigger] final(out)@[i] == old(out)@[i],
        ({
            let near = smallest(pivot_scores(x@, pivots@, d as nat, pivots@.len() / (d as nat)), k as nat);
            forall|i: int| 0 <= i < k ==> #[trigger] final(out)@[i] == if i < near.len() { near[i].1 } else { 0 }
        }),
{
    let cc: usize = pivots.len() / d;
    let mut best: Vec<(i32, u32)> = Vec::with_capacity(k + 1);
    let mut j: usize = 0;
    assert(pivot_scores(x@, pivots@, d as nat, 0) =~= Seq::<(i32, u32)>::empty());
    assert(best@ =~= smallest(Seq::<(i32, u32)>::empty(), k as nat));
    while j < cc
        invariant
            j <= cc,
            0 < d,
            1 <= k <= 8,
            x@.len() <= d,
            x@.len() <= L2_DIM,
            cc == pivots@.len() / (d as nat),
            cc <= u32::MAX,
            best@ == smallest(pivot_scores(x@, pivots@, d as nat, j as nat), k as nat),
        decreases cc - j,
    {
        let dist: i32 = pivot_score(x, pivots, d, cc, j);
        let ghost s = pivot_scores(x@, pivots@, d as nat, j as nat);
        proof {
            assert(pivot_scores(x@, pivots@, d as nat, (j + 1) as nat) =~= s.push((dist, j as u32)));
            lemma_smallest(s, k as nat);
            lemma_smallest_push(s, (dist, j as u32), k as nat);
        }
        if best.len() < k || dist < best[best.len() - 1].0 {
            crate::order::place_into(&mut best, (dist, j as u32));
            if best.len() > k {
                best.truncate(k);
            }
            assert(best@ =~= first(place(smallest(s, k as nat), (dist, j as u32)), k as nat));
        } else {
            proof {
                assert forall|i: int| 0 <= i < k implies (#[trigger] smallest(s, k as nat)[i]).le((dist, j as u32)) by {
                    assert(best@[i].le(best@[k - 1]));
                    assert(s.contains(best@[i]));
                    let n = choose|n: int| 0 <= n < s.len() && s[n] == best@[i];
                }
                lemma_smallest_drop(s, (dist, j as u32), k as nat);
            }
        }
        j = j + 1;
    }
    let ghost near = best@;
    proof {
        lemma_smallest(pivot_scores(x@, pivots@, d as nat, cc as nat), k as nat);
    }
    let mut i: usize = 0;
    while i < k
        invariant
            i <= k,
            k <= old(out)@.len(),
            best@ == near,
            near.len() <= k,
            out@.len() == old(out)@.len(),
            forall|p: int| k <= p < old(out)@.len() ==> #[trigger] out@[p] == old(out)@[p],
            forall|p: int| 0 <= p < i ==> #[trigger] out@[p] == if p < near.len() { near[p].1 } else { 0 },
        decreases k - i,
    {
        if i < best.len() {
            out[i] = best[i].1;
        } else {
            out[i] = 0;
        }
        i = i + 1;
    }
}

/// One step of the multiplicative generator that drives the self-tests.
pub open spec fn stepped(seed: u64) -> u64 {
    seed.wrapping_mul(6364136223846793005).wrapping_add(1)
}

/// The generator after `n` steps.
pub open spec fn seed_after(seed: u64, n: nat) -> u64
    decreases n,
{
    if n == 0 {
        seed
    } else {
        stepped(seed_after(seed, (n - 1) as nat))
    }
}

/// `n` draws: a byte of each state, as a signed value.
pub open spec fn drawn_vector(seed: u64, n: nat) -> Seq<i8> {
    Seq::new(n, |i: int| ((seed_after(seed, (i + 1) as nat) >> 24u64) % 256 - 128) as i8)
}

/// Draw one value.
fn next_byte(seed: &mut u64) -> (r: i8)
    ensures
        *final(seed) == stepped(*old(seed)),
        r == (stepped(*old(seed)) >> 24u64) % 256 - 128,
{
    *seed = seed.wrapping_mul(6364136223846793005).wrapping_add(1);
    let low: i32 = ((*seed >> 24u64) % 256) as i32;
    (low - 128) as i8
}

/// Draw `n` values.
fn random_vector(seed: &mut u64, n: usize) -> (r: Vec<i8>)
    ensures
        r@ == drawn_vector(*old(seed), n as nat),
        *final(seed) == seed_after(*old(seed), n as nat),
{
    let ghost all = drawn_vector(*seed, n as nat);
    let mut v: Vec<i8> = Vec::with_capacity(n);
    let mut i: usize = 0;
    while i < n
        invariant
            i <= n,
            v@.len() == i,
            all == drawn_vector(*old(seed), n as nat),
            *seed == seed_after(*old(seed), i as nat),
            forall|j: int| 0 <= j < i ==> #[trigger] v@[j] == all[j],
        decreases n - i,
    {
        let b: i8 = next_byte(seed);
        v.push(b);
        i = i + 1;
    }
    assert(v@ =~= all);
    v
}

/// Self-test: the dispatched L2 agrees with the scalar one on 64 random pairs.
pub fn selftest(d: usize) -> (ok: bool)
    requires
        d <= L2_DIM,
    ensures
        ok,
{
    let mut seed: u64 = 0x1234_5678_9abc_def0;
    let mut round: usize = 0;
    while round < 64
        invariant
            d <= L2_DIM,
        decreases 64 - round,
    {
        let x = random_vector(&mut seed, d);
        let c = random_vector(&mut seed, d);
        if l2_i8(&x, &c) != l2_i8_scalar(&x, &c) {
            return false;
        }
        round = round + 1;
    }
    true
}

/// Self-test: the unsigned-by-signed inner product agrees with the plain one on 32 random pairs.
pub fn selftest_dot(d: usize) -> (ok: bool)
    requires
        d <= DOT_DIM,
    ensures
        ok,
{
    let mut seed: u64 = 0x1357_2468;
    let mut round: usize = 0;
    while round < 32
        invariant
            d <= DOT_DIM,
        decreases 32 - round,
    {
        let x = random_vector(&mut seed, d);
        let c = random_vector(&mut seed, d);
        if dot_i8_vnni(&x, &c) != dot_i8_avx2(&x, &c) {
            return false;
        }
        round = round + 1;
    }
    true
}

/// Self-test: the norm-decomposition block kernel agrees with the plain block kernel on 39 random
/// centroids.
pub fn selftest_l2_norm(d: usize) -> (ok: bool)
    requires
        d <= L2_DIM,
    ensures
        ok,
{
    let ncand: usize = 39;
    let mut seed: u64 = 0x0bad_c0de;
    let q = random_vector(&mut seed, d);
    let block = random_vector(&mut seed, ncand * d);
    let mut adj: Vec<i32> = Vec::with_capacity(ncand);
    let mut j: usize = 0;
    while j < ncand
        invariant
            j <= ncand,
            ncand == 39,
            d <= L2_DIM,
            block@.len() == ncand * d,
            adj@.len() == j,
            forall|i: int| 0 <= i < j ==> #[trigger] adj@[i] == cadj(row_of(block@, d as nat, i)),
        decreases ncand - j,
    {
        proof {
            lemma_row_in_range(j as int, d as int, ncand as int, block@.len() as int);
        }
        adj.push(cadj_i8(slice_subrange(block.as_slice(), j * d, j * d + d)));
        j = j + 1;
    }
    let qnorm: i32 = sqnorm_i8(&q);
    let mut a: Vec<i32> = vec![0; ncand];
    let mut b: Vec<i32> = vec![0; ncand];
    l2_i8_block(&q, &block, ncand, d, d, a.as_mut_slice());
    l2_i8_block_norm(&q, &block, &adj, ncand, d, qnorm, b.as_mut_slice());
    let mut i: usize = 0;
    while i < ncand
        invariant
            ncand == 39,
            a@.len() == ncand,
            b@.len() == ncand,
            forall|p: int| 0 <= p < ncand ==> #[trigger] a@[p] == block_l2(q@, block@, d as nat, d as nat, p),
            forall|p: int| 0 <= p < ncand ==> #[trigger] b@[p] == block_l2(q@, block@, d as nat, d as nat, p),
        decreases ncand - i,
    {
        if a[i] != b[i] {
            return false;
        }
        i = i + 1;
    }
    true
}

} // verus!
