//! Blocks of 16 product-quantised points with two 4-bit codes per byte, and the kernels that score a
//! block against a lookup table.
//!
//! A block of `m` subspaces is `m / 2` groups of 16 bytes: byte `i` of group `g` holds the codes of
//! point `i` in subspaces `2g` (low half) and `2g + 1` (high half). A table has 16 entries per
//! subspace.
use vstd::prelude::*;
use crate::scatter::spun_after;
use crate::simd::{lemma_nibbles, seed_after};

verus! {

/// Points per block.
pub const LANES: usize = 16;

/// Most subspaces for which an int16 table sum always fits an `i32`.
pub const MAX_M: usize = 65534;

/// A product-quantiser codebook: 16 centroids of `dpb` coordinates for each of `m` subspaces. The
/// single-precision values are kept as bit patterns.
pub struct Pq {
    pub d: usize,
    pub dpb: usize,
    pub m: usize,
    pub cent: Vec<u32>,
    pub eta: u32,
}

/// An 8-bit refinement codebook: 256 centroids of `dpb` coordinates for each of `m` subspaces.
pub struct ResidPq {
    pub d: usize,
    pub dpb: usize,
    pub m: usize,
    pub cent: Vec<u32>,
}

/// Byte that packs the codes of point `i` in subspaces `2g` and `2g + 1`.
pub open spec fn packed_byte(codes: Seq<Vec<u8>>, g: int, i: int) -> u8 {
    codes[i]@[2 * g] | (codes[i]@[2 * g + 1] << 4u8)
}

/// The block that packs the codes of 16 points.
pub open spec fn packed(codes: Seq<Vec<u8>>, m: nat) -> Seq<u8> {
    Seq::new((m / 2) * 16, |p: int| packed_byte(codes, p / 16, p % 16))
}

/// Code of point `lane` in subspace `s` of a block.
pub open spec fn code_at(block: Seq<u8>, lane: int, s: int) -> int {
    let byte = block[(s / 2) * 16 + lane];
    if s % 2 == 0 {
        (byte % 16) as int
    } else {
        (byte / 16) as int
    }
}

/// Append the block that packs the codes of 16 points (at least `m` codes each).
pub fn pack_block(codes16: &Vec<Vec<u8>>, m: usize, out: &mut Vec<u8>)
    requires
        codes16@.len() >= 16,
        forall|i: int| 0 <= i < 16 ==> (#[trigger] codes16@[i])@.len() >= m,
    ensures
        final(out)@ == old(out)@ + packed(codes16@, m as nat),
{
    let half: usize = m / 2;
    let mut g: usize = 0;
    assert(out@ =~= old(out)@ + packed(codes16@, m as nat).take(0));
    while g < half
        invariant
            g <= half,
            half == m / 2,
            codes16@.len() >= 16,
            forall|i: int| 0 <= i < 16 ==> (#[trigger] codes16@[i])@.len() >= m,
            out@ == old(out)@ + packed(codes16@, m as nat).take(g * 16),
        decreases half - g,
    {
        let mut i: usize = 0;
        while i < 16
            invariant
                i <= 16,
                g < half,
                half == m / 2,
                codes16@.len() >= 16,
                forall|j: int| 0 <= j < 16 ==> (#[trigger] codes16@[j])@.len() >= m,
                out@ == old(out)@ + packed(codes16@, m as nat).take(g * 16 + i),
            decreases 16 - i,
        {
            assert(codes16@[i as int]@.len() >= m);
            let b: u8 = codes16[i][2 * g] | (codes16[i][2 * g + 1] << 4u8);
            out.push(b);
            proof {
                let p = g * 16 + i;
                assert(p / 16 == g && p % 16 == i);
                assert(packed(codes16@, m as nat)[p] == b);
                assert(out@ =~= old(out)@ + packed(codes16@, m as nat).take(p + 1));
            }
            i = i + 1;
        }
        g = g + 1;
    }
    assert(packed(codes16@, m as nat).take(half * 16) =~= packed(codes16@, m as nat));
}

/// Code of point `i` in subspace `s`; 0 for a point that is not there.
pub open spec fn lane_code(codes: Seq<Vec<u8>>, i: int, s: int) -> u8 {
    if i < codes.len() {
        codes[i]@[s]
    } else {
        0
    }
}

/// The block that packs the codes of up to 16 points.
pub open spec fn packed_rows(codes: Seq<Vec<u8>>, m: nat) -> Seq<u8> {
    Seq::new((m / 2) * 16, |p: int| lane_code(codes, p % 16, 2 * (p / 16)) | (lane_code(codes, p % 16, 2 * (p / 16) + 1) << 4u8))
}

/// Append the block that packs the codes of up to 16 points; the lanes behind them are zero.
pub fn pack_rows(codes: Vec<Vec<u8>>, m: usize, out: &mut Vec<u8>)
    requires
        codes@.len() <= 16,
        forall|i: int| 0 <= i < codes@.len() ==> (#[trigger] codes@[i])@.len() >= m,
    ensures
        final(out)@ == old(out)@ + packed_rows(codes@, m as nat),
{
    let ghost given = codes@;
    let mut rows = codes;
    while rows.len() < 16
        invariant
            given.len() <= rows@.len() <= 16,
            forall|i: int| 0 <= i < rows@.len() ==> (#[trigger] rows@[i])@.len() >= m,
            forall|i: int| 0 <= i < given.len() ==> #[trigger] rows@[i] == given[i],
            forall|i: int, s: int| given.len() <= i < rows@.len() && 0 <= s < m ==> #[trigger] rows@[i]@[s] == 0,
        decreases 16 - rows@.len(),
    {
        rows.push(vec![0u8; m]);
    }
    pack_block(&rows, m, out);
    assert(packed(rows@, m as nat) =~= packed_rows(given, m as nat)) by {
        assert forall|p: int| 0 <= p < (m / 2) * 16 implies packed(rows@, m as nat)[p] == packed_rows(given, m as nat)[p] by {
            let g = p / 16;
            let i = p % 16;
            assert(rows@[i]@[2 * g] == lane_code(given, i, 2 * g));
            assert(rows@[i]@[2 * g + 1] == lane_code(given, i, 2 * g + 1));
        }
    }
}

/// A packed block gives back the 4-bit codes that went into it.
pub proof fn law_packed_codes_come_back(codes: Seq<Vec<u8>>, m: nat, lane: int, s: int)
    requires
        codes.len() >= 16,
        forall|i: int| 0 <= i < 16 ==> (#[trigger] codes[i])@.len() >= m,
        forall|i: int, k: int| 0 <= i < 16 && 0 <= k < m ==> (#[trigger] codes[i]@[k]) < 16,
        m % 2 == 0,
        0 <= lane < 16,
        0 <= s < m,
    ensures
        code_at(packed(codes, m), lane, s) == codes[lane]@[s],
{
    let g = s / 2;
    let p = g * 16 + lane;
    assert(p / 16 == g && p % 16 == lane);
    assert(0 <= p < (m / 2) * 16);
    let a = codes[lane]@[2 * g];
    let b = codes[lane]@[2 * g + 1];
    assert((a | (b << 4u8)) % 16 == a && (a | (b << 4u8)) / 16 == b) by (bit_vector)
        requires
            a < 16,
            b < 16,
    ;
}

/// Sum of the int8 table entries that a point's codes select, over `n` groups; the byte of group
/// `g` stands at `g * stride + off`.
pub open spec fn adc_i8(lut: Seq<i8>, bytes: Seq<u8>, stride: nat, off: nat, n: nat) -> int
    decreases n,
{
    if n == 0 {
        0
    } else {
        let g = (n - 1) as int;
        let byte = bytes[g * stride + off];
        adc_i8(lut, bytes, stride, off, (n - 1) as nat) + lut[32 * g + byte % 16] + lut[32 * g + 16 + byte / 16]
    }
}

/// Sum of the int16 table entries that a point's codes select, over `n` groups.
pub open spec fn adc_i16(lut: Seq<i16>, bytes: Seq<u8>, stride: nat, off: nat, n: nat) -> int
    decreases n,
{
    if n == 0 {
        0
    } else {
        let g = (n - 1) as int;
        let byte = bytes[g * stride + off];
        adc_i16(lut, bytes, stride, off, (n - 1) as nat) + lut[32 * g + byte % 16] + lut[32 * g + 16 + byte / 16]
    }
}

/// `x` clamped to the int8 range.
pub open spec fn clamp_i8(x: int) -> int {
    if x < -128 {
        -128
    } else if x > 127 {
        127
    } else {
        x
    }
}

/// The int8 table sum with saturation after each addition.
pub open spec fn adc_saturating(lut: Seq<i8>, bytes: Seq<u8>, lane: nat, n: nat) -> int
    decreases n,
{
    if n == 0 {
        0
    } else {
        let g = (n - 1) as int;
        let byte = bytes[g * 16 + lane];
        clamp_i8(clamp_i8(adc_saturating(lut, bytes, lane, (n - 1) as nat) + lut[32 * g + byte % 16]) + lut[32 * g + 16 + byte / 16])
    }
}

proof fn lemma_adc_i8_bound(lut: Seq<i8>, bytes: Seq<u8>, stride: nat, off: nat, n: nat)
    ensures
        -256 * n <= adc_i8(lut, bytes, stride, off, n) <= 254 * n,
    decreases n,
{
    if n > 0 {
        lemma_adc_i8_bound(lut, bytes, stride, off, (n - 1) as nat);
    }
}

proof fn lemma_adc_i16_bound(lut: Seq<i16>, bytes: Seq<u8>, stride: nat, off: nat, n: nat)
    ensures
        -65536 * n <= adc_i16(lut, bytes, stride, off, n) <= 65534 * n,
    decreases n,
{
    if n > 0 {
        lemma_adc_i16_bound(lut, bytes, stride, off, (n - 1) as nat);
    }
}

/// The score depends only on the bytes it reads.
pub proof fn lemma_adc_i8_reads(lut: Seq<i8>, a: Seq<u8>, sa: nat, oa: nat, b: Seq<u8>, sb: nat, ob: nat, n: nat)
    requires
        forall|g: int| 0 <= g < n ==> #[trigger] a[g * sa + oa] == b[g * sb + ob],
    ensures
        adc_i8(lut, a, sa, oa, n) == adc_i8(lut, b, sb, ob, n),
    decreases n,
{
    if n > 0 {
        lemma_adc_i8_reads(lut, a, sa, oa, b, sb, ob, (n - 1) as nat);
        assert(a[(n - 1) * sa + oa] == b[(n - 1) * sb + ob]);
    }
}

proof fn lemma_group_index(g: int, n: int, stride: int, off: int, len: int)
    requires
        0 <= g < n,
        0 <= off < stride,
        n * stride <= len,
    ensures
        0 <= g * stride,
        g * stride + off < len,
{
    assert(0 <= g * stride && g * stride + stride <= n * stride) by (nonlinear_arith)
        requires
            0 <= g < n,
            0 < stride,
    ;
}

fn lane_score_i8(bytes: &[u8], stride: usize, off: usize, n: usize, lut: &[i8]) -> (r: i32)
    requires
        off < stride,
        n * stride <= bytes@.len(),
        n * 32 <= lut@.len(),
        n <= MAX_M / 2,
    ensures
        r == adc_i8(lut@, bytes@, stride as nat, off as nat, n as nat),
{
    let blen: usize = bytes.len();
    let mut s: i32 = 0;
    let mut g: usize = 0;
    while g < n
        invariant
            g <= n,
            blen == bytes@.len(),
            off < stride,
            n * stride <= bytes@.len(),
            n * 32 <= lut@.len(),
            n <= MAX_M / 2,
            s == adc_i8(lut@, bytes@, stride as nat, off as nat, g as nat),
        decreases n - g,
    {
        proof {
            lemma_group_index(g as int, n as int, stride as int, off as int, blen as int);
            lemma_adc_i8_bound(lut@, bytes@, stride as nat, off as nat, g as nat);
        }
        let byte: u8 = bytes[g * stride + off];
        proof {
            lemma_nibbles(byte);
        }
        s = s + lut[32 * g + (byte & 0x0f) as usize] as i32 + lut[32 * g + 16 + (byte >> 4u8) as usize] as i32;
        g = g + 1;
    }
    s
}

fn lane_score_i16(bytes: &[u8], stride: usize, off: usize, n: usize, lut: &[i16]) -> (r: i32)
    requires
        off < stride,
        n * stride <= bytes@.len(),
        n * 32 <= lut@.len(),
        n <= MAX_M / 2,
    ensures
        r == adc_i16(lut@, bytes@, stride as nat, off as nat, n as nat),
{
    let blen: usize = bytes.len();
    let mut s: i32 = 0;
    let mut g: usize = 0;
    while g < n
        invariant
            g <= n,
            blen == bytes@.len(),
            off < stride,
            n * stride <= bytes@.len(),
            n * 32 <= lut@.len(),
            n <= MAX_M / 2,
            s == adc_i16(lut@, bytes@, stride as nat, off as nat, g as nat),
        decreases n - g,
    {
        proof {
            lemma_group_index(g as int, n as int, stride as int, off as int, blen as int);
            lemma_adc_i16_bound(lut@, bytes@, stride as nat, off as nat, g as nat);
        }
        let byte: u8 = bytes[g * stride + off];
        proof {
            lemma_nibbles(byte);
        }
        s = s + lut[32 * g + (byte & 0x0f) as usize] as i32 + lut[32 * g + 16 + (byte >> 4u8) as usize] as i32;
        g = g + 1;
    }
    s
}

/// A table and a block fit `m` subspaces.
pub open spec fn fits(block_len: nat, m: nat, lut_len: nat) -> bool {
    &&& (m / 2) * 16 <= block_len
    &&& (m / 2) * 32 <= lut_len
    &&& m <= MAX_M
}

/// Score the 16 points of a block with an int16 table, without saturation.
pub fn block_adc_i16(block: &[u8], m: usize, lut: &[i16], out: &mut [i32; 16])
    requires
        fits(block@.len(), m as nat, lut@.len()),
    ensures
        forall|i: int| 0 <= i < 16 ==> #[trigger] final(out)@[i] == adc_i16(lut@, block@, 16, i as nat, (m / 2) as nat),
{
    let mut i: usize = 0;
    while i < 16
        invariant
            i <= 16,
            fits(block@.len(), m as nat, lut@.len()),
            forall|j: int| 0 <= j < i ==> #[trigger] out@[j] == adc_i16(lut@, block@, 16, j as nat, (m / 2) as nat),
        decreases 16 - i,
    {
        out[i] = lane_score_i16(block, 16, i, m / 2, lut);
        i = i + 1;
    }
}

/// Score the 16 points of a block with an int8 table, without saturation.
pub fn block_adc_i8_scalar(block: &[u8], m: usize, lut: &[i8], out: &mut [i32; 16])
    requires
        fits(block@.len(), m as nat, lut@.len()),
    ensures
        forall|i: int| 0 <= i < 16 ==> #[trigger] final(out)@[i] == adc_i8(lut@, block@, 16, i as nat, (m / 2) as nat),
{
    let mut i: usize = 0;
    while i < 16
        invariant
            i <= 16,
            fits(block@.len(), m as nat, lut@.len()),
            forall|j: int| 0 <= j < i ==> #[trigger] out@[j] == adc_i8(lut@, block@, 16, j as nat, (m / 2) as nat),
        decreases 16 - i,
    {
        out[i] = lane_score_i8(block, 16, i, m / 2, lut);
        i = i + 1;
    }
}

/// The fast-scan kernel: one table lookup per subspace, summed without saturation. The same values
/// as [`block_adc_i8_scalar`].
pub fn block_adc_i8_i16acc(block: &[u8], m: usize, lut: &[i8], out: &mut [i32; 16])
    requires
        fits(block@.len(), m as nat, lut@.len()),
    ensures
        forall|i: int| 0 <= i < 16 ==> #[trigger] final(out)@[i] == adc_i8(lut@, block@, 16, i as nat, (m / 2) as nat),
{
    block_adc_i8_scalar(block, m, lut, out)
}

/// The int16 kernel over one block. The same values as [`block_adc_i16`].
pub fn block_adc_i16_avx2(block: &[u8], m: usize, lut: &[i16], out: &mut [i32; 16])
    requires
        fits(block@.len(), m as nat, lut@.len()),
    ensures
        forall|i: int| 0 <= i < 16 ==> #[trigger] final(out)@[i] == adc_i16(lut@, block@, 16, i as nat, (m / 2) as nat),
{
    block_adc_i16(block, m, lut, out)
}

/// The int16 kernel over two consecutive blocks: `out[..16]` are the scores of the first block,
/// `out[16..]` those of the second.
pub fn block_adc_i16_avx512_x2(block0: &[u8], block1: &[u8], m: usize, lut: &[i16], out: &mut [i32; 32])
    requires
        fits(block0@.len(), m as nat, lut@.len()),
        fits(block1@.len(), m as nat, lut@.len()),
    ensures
        forall|i: int| 0 <= i < 16 ==> #[trigger] final(out)@[i] == adc_i16(lut@, block0@, 16, i as nat, (m / 2) as nat),
        forall|i: int| 16 <= i < 32 ==> #[trigger] final(out)@[i] == adc_i16(lut@, block1@, 16, (i - 16) as nat, (m / 2) as nat),
{
    let mut i: usize = 0;
    while i < 16
        invariant
            i <= 16,
            fits(block0@.len(), m as nat, lut@.len()),
            fits(block1@.len(), m as nat, lut@.len()),
            forall|j: int| 0 <= j < i ==> #[trigger] out@[j] == adc_i16(lut@, block0@, 16, j as nat, (m / 2) as nat),
            forall|j: int| 16 <= j < 16 + i ==> #[trigger] out@[j] == adc_i16(lut@, block1@, 16, (j - 16) as nat, (m / 2) as nat),
        decreases 16 - i,
    {
        out[i] = lane_score_i16(block0, 16, i, m / 2, lut);
        out[16 + i] = lane_score_i16(block1, 16, i, m / 2, lut);
        i = i + 1;
    }
}

/// Score an interleaved superblock of 64 points: `out[16 * sub + i]` is point `i` of sub-block `sub`.
pub fn block_adc_i8_i16acc_avx512_il(sblock: &[u8], m: usize, lut: &[i8], out: &mut [i32; 64])
    requires
        (m / 2) * 64 <= sblock@.len(),
        (m / 2) * 32 <= lut@.len(),
        m <= MAX_M,
    ensures
        forall|i: int| 0 <= i < 64 ==> #[trigger] final(out)@[i] == adc_i8(lut@, sblock@, 64, i as nat, (m / 2) as nat),
{
    let mut i: usize = 0;
    while i < 64
        invariant
            i <= 64,
            (m / 2) * 64 <= sblock@.len(),
            (m / 2) * 32 <= lut@.len(),
            m <= MAX_M,
            forall|j: int| 0 <= j < i ==> #[trigger] out@[j] == adc_i8(lut@, sblock@, 64, j as nat, (m / 2) as nat),
        decreases 64 - i,
    {
        out[i] = lane_score_i8(sblock, 64, i, m / 2, lut);
        i = i + 1;
    }
}

/// Score four blocks at once; `out[16 * sub + i]` is point `i` of block `sub`.
pub fn block_adc_i8_i16acc_avx512(blocks: [&[u8]; 4], m: usize, lut: &[i8], out: &mut [i32; 64])
    requires
        forall|b: int| 0 <= b < 4 ==> fits((#[trigger] blocks@[b])@.len(), m as nat, lut@.len()),
    ensures
        forall|b: int, i: int| 0 <= b < 4 && 0 <= i < 16 ==> #[trigger] final(out)@[16 * b + i] == adc_i8(lut@, blocks@[b]@, 16, i as nat, (m / 2) as nat),
{
    let mut b: usize = 0;
    while b < 4
        invariant
            b <= 4,
            forall|c: int| 0 <= c < 4 ==> fits((#[trigger] blocks@[c])@.len(), m as nat, lut@.len()),
            forall|c: int, i: int| 0 <= c < b && 0 <= i < 16 ==> #[trigger] out@[16 * c + i] == adc_i8(lut@, blocks@[c]@, 16, i as nat, (m / 2) as nat),
        decreases 4 - b,
    {
        let mut i: usize = 0;
        while i < 16
            invariant
                i <= 16,
                b < 4,
                forall|c: int| 0 <= c < 4 ==> fits((#[trigger] blocks@[c])@.len(), m as nat, lut@.len()),
                forall|c: int, j: int| 0 <= c < b && 0 <= j < 16 ==> #[trigger] out@[16 * c + j] == adc_i8(lut@, blocks@[c]@, 16, j as nat, (m / 2) as nat),
                forall|j: int| 0 <= j < i ==> #[trigger] out@[16 * b + j] == adc_i8(lut@, blocks@[b as int]@, 16, j as nat, (m / 2) as nat),
            decreases 16 - i,
        {
            let blk: &[u8] = blocks[b];
            assert(fits(blocks@[b as int]@.len(), m as nat, lut@.len()));
            out[16 * b + i] = lane_score_i8(blk, 16, i, m / 2, lut);
            i = i + 1;
        }
        b = b + 1;
    }
}

/// `sb` interleaves four blocks over `n` groups: group `g` of `sb` is group `g` of each block in turn.
pub open spec fn interleaves(sb: Seq<u8>, blocks: Seq<Seq<u8>>, n: nat) -> bool {
    forall|g: int, b: int, i: int|
        0 <= g < n && 0 <= b < 4 && 0 <= i < 16 ==> #[trigger] sb[g * 64 + (16 * b + i)] == blocks[b][g * 16 + i]
}

/// Re-pack four 16-point blocks into one interleaved 64-point superblock; bytes of `out` beyond it
/// are kept.
pub fn interleave4(b0: &[u8], b1: &[u8], b2: &[u8], b3: &[u8], m: usize, out: &mut [u8])
    requires
        (m / 2) * 16 <= b0@.len(),
        (m / 2) * 16 <= b1@.len(),
        (m / 2) * 16 <= b2@.len(),
        (m / 2) * 16 <= b3@.len(),
        (m / 2) * 64 <= old(out)@.len(),
    ensures
        final(out)@.len() == old(out)@.len(),
        interleaves(final(out)@, seq![b0@, b1@, b2@, b3@], (m / 2) as nat),
        forall|p: int| (m / 2) * 64 <= p < old(out)@.len() ==> #[trigger] final(out)@[p] == old(out)@[p],
{
    let olen: usize = out.len();
    let half: usize = m / 2;
    let ghost bs = seq![b0@, b1@, b2@, b3@];
    let mut g: usize = 0;
    while g < half
        invariant
            g <= half,
            half == m / 2,
            olen == old(out)@.len(),
            half * 16 <= b0@.len(),
            half * 16 <= b1@.len(),
            half * 16 <= b2@.len(),
            half * 16 <= b3@.len(),
            half * 64 <= olen,
            out@.len() == old(out)@.len(),
            bs == seq![b0@, b1@, b2@, b3@],
            interleaves(out@, bs, g as nat),
            forall|p: int| g * 64 <= p < old(out)@.len() ==> #[trigger] out@[p] == old(out)@[p],
        decreases half - g,
    {
        let mut i: usize = 0;
        let base: usize = g * 64;
        while i < 16
            invariant
                i <= 16,
                g < half,
                base == g * 64,
                olen == old(out)@.len(),
                half * 16 <= b0@.len(),
                half * 16 <= b1@.len(),
                half * 16 <= b2@.len(),
                half * 16 <= b3@.len(),
                half * 64 <= olen,
                out@.len() == old(out)@.len(),
                bs == seq![b0@, b1@, b2@, b3@],
                interleaves(out@, bs, g as nat),
                forall|b: int, j: int| 0 <= b < 4 && 0 <= j < i ==> #[trigger] out@[base + (16 * b + j)] == bs[b][g * 16 + j],
                forall|p: int| g * 64 + 64 <= p < old(out)@.len() ==> #[trigger] out@[p] == old(out)@[p],
            decreases 16 - i,
        {
            out[base + i] = b0[g * 16 + i];
            out[base + 16 + i] = b1[g * 16 + i];
            out[base + 32 + i] = b2[g * 16 + i];
            out[base + 48 + i] = b3[g * 16 + i];
            i = i + 1;
        }
        assert(interleaves(out@, bs, (g + 1) as nat)) by {
            assert forall|h: int, b: int, j: int| 0 <= h < g + 1 && 0 <= b < 4 && 0 <= j < 16 implies #[trigger] out@[h * 64 + (16 * b + j)] == bs[b][h * 16 + j] by {
                if h == g {
                    assert(out@[base + (16 * b + j)] == bs[b][g * 16 + j]);
                }
            }
        }
        g = g + 1;
    }
}

/// Scoring an interleaved superblock gives exactly the scores of its four blocks.
pub proof fn law_interleaved_scores_agree(lut: Seq<i8>, sb: Seq<u8>, blocks: Seq<Seq<u8>>, n: nat, b: int, i: int)
    requires
        interleaves(sb, blocks, n),
        0 <= b < 4,
        0 <= i < 16,
    ensures
        adc_i8(lut, sb, 64, (16 * b + i) as nat, n) == adc_i8(lut, blocks[b], 16, i as nat, n),
{
    assert forall|g: int| 0 <= g < n implies #[trigger] sb[g * 64nat + ((16 * b + i) as nat)] == blocks[b][g * 16nat + (i as nat)] by {
        assert(sb[g * 64 + (16 * b + i)] == blocks[b][g * 16 + i]);
    }
    lemma_adc_i8_reads(lut, sb, 64, (16 * b + i) as nat, blocks[b], 16, i as nat, n);
}

fn saturate(x: i32) -> (r: i32)
    ensures
        r == clamp_i8(x as int),
{
    if x < -128 {
        -128
    } else if x > 127 {
        127
    } else {
        x
    }
}

fn lane_score_saturating(block: &[u8], lane: usize, n: usize, lut: &[i8]) -> (r: i32)
    requires
        lane < 16,
        n * 16 <= block@.len(),
        n * 32 <= lut@.len(),
    ensures
        r == adc_saturating(lut@, block@, lane as nat, n as nat),
        -128 <= r <= 127,
{
    let blen: usize = block.len();
    let llen: usize = lut.len();
    let mut s: i32 = 0;
    let mut g: usize = 0;
    while g < n
        invariant
            g <= n,
            lane < 16,
            blen == block@.len(),
            llen == lut@.len(),
            n * 16 <= blen,
            n * 32 <= llen,
            -128 <= s <= 127,
            s == adc_saturating(lut@, block@, lane as nat, g as nat),
        decreases n - g,
    {
        let byte: u8 = block[g * 16 + lane];
        proof {
            lemma_nibbles(byte);
        }
        s = saturate(s + lut[32 * g + (byte & 0x0f) as usize] as i32);
        s = saturate(s + lut[32 * g + 16 + (byte >> 4u8) as usize] as i32);
        g = g + 1;
    }
    s
}

/// Score the 16 points of a block with an int8 table, saturating to the int8 range at each addition.
pub fn block_adc_scalar(block: &[u8], m: usize, lut: &[i8]) -> (acc: [i32; 16])
    requires
        (m / 2) * 16 <= block@.len(),
        (m / 2) * 32 <= lut@.len(),
    ensures
        forall|i: int| 0 <= i < 16 ==> #[trigger] acc@[i] == adc_saturating(lut@, block@, i as nat, (m / 2) as nat),
        forall|i: int| 0 <= i < 16 ==> -128 <= #[trigger] acc@[i] <= 127,
{
    let mut acc: [i32; 16] = [0; 16];
    let mut i: usize = 0;
    while i < 16
        invariant
            i <= 16,
            (m / 2) * 16 <= block@.len(),
            (m / 2) * 32 <= lut@.len(),
            forall|j: int| 0 <= j < i ==> #[trigger] acc@[j] == adc_saturating(lut@, block@, j as nat, (m / 2) as nat),
            forall|j: int| 0 <= j < i ==> -128 <= #[trigger] acc@[j] <= 127,
        decreases 16 - i,
    {
        acc[i] = lane_score_saturating(block, i, m / 2, lut);
        i = i + 1;
    }
    acc
}

/// The saturating scores as signed bytes.
pub fn block_adc_sse(block: &[u8], m: usize, lut: &[i8], out16: &mut [i8; 16])
    requires
        (m / 2) * 16 <= block@.len(),
        (m / 2) * 32 <= lut@.len(),
    ensures
        forall|i: int| 0 <= i < 16 ==> #[trigger] final(out16)@[i] == adc_saturating(lut@, block@, i as nat, (m / 2) as nat),
{
    let acc = block_adc_scalar(block, m, lut);
    let mut i: usize = 0;
    while i < 16
        invariant
            i <= 16,
            forall|j: int| 0 <= j < 16 ==> #[trigger] acc@[j] == adc_saturating(lut@, block@, j as nat, (m / 2) as nat),
            forall|j: int| 0 <= j < 16 ==> -128 <= #[trigger] acc@[j] <= 127,
            forall|j: int| 0 <= j < i ==> #[trigger] out16@[j] == adc_saturating(lut@, block@, j as nat, (m / 2) as nat),
        decreases 16 - i,
    {
        out16[i] = acc[i] as i8;
        i = i + 1;
    }
}

/// The int8 table sum up to the low half of group `g`.
pub open spec fn adc_to_low_half(lut: Seq<i8>, block: Seq<u8>, lane: nat, g: nat) -> int {
    adc_i8(lut, block, 16, lane, g) + lut[32 * g + block[g * 16 + lane as int] % 16]
}

/// While no partial sum leaves the int8 range, saturation changes nothing.
pub proof fn law_saturation_is_idle_in_range(lut: Seq<i8>, block: Seq<u8>, lane: nat, n: nat)
    requires
        forall|g: nat| g < n ==> -128 <= #[trigger] adc_to_low_half(lut, block, lane, g) <= 127,
        forall|g: nat| g <= n ==> -128 <= #[trigger] adc_i8(lut, block, 16, lane, g) <= 127,
    ensures
        adc_saturating(lut, block, lane, n) == adc_i8(lut, block, 16, lane, n),
    decreases n,
{
    if n > 0 {
        let g = (n - 1) as nat;
        law_saturation_is_idle_in_range(lut, block, lane, g);
        assert(-128 <= adc_to_low_half(lut, block, lane, g) <= 127);
        assert(-128 <= adc_i8(lut, block, 16, lane, n) <= 127);
    }
}

/// `n` draws of the multiplicative generator: a byte of each state.
spec fn mixed(seed: u64, n: nat) -> Seq<u8> {
    Seq::new(n, |i: int| (seed_after(seed, (i + 1) as nat) >> 33u64) as u8)
}

/// `n` pseudo-random bytes of the multiplicative generator.
fn mixed_bytes(seed: &mut u64, n: usize) -> (r: Vec<u8>)
    ensures
        r@ == mixed(*old(seed), n as nat),
        *final(seed) == seed_after(*old(seed), n as nat),
{
    let ghost all = mixed(*seed, n as nat);
    let mut v: Vec<u8> = Vec::with_capacity(n);
    while v.len() < n
        invariant
            v@.len() <= n,
            all == mixed(*old(seed), n as nat),
            *seed == seed_after(*old(seed), v@.len()),
            forall|j: int| 0 <= j < v@.len() ==> #[trigger] v@[j] == all[j],
        decreases n - v@.len(),
    {
        *seed = seed.wrapping_mul(6364136223846793005).wrapping_add(1);
        v.push((*seed >> 33u64) as u8);
    }
    assert(v@ =~= all);
    v
}

/// `n` draws of the shift-and-xor generator: the low byte of each state.
spec fn spun_draws(state: u64, n: nat) -> Seq<u8> {
    Seq::new(n, |i: int| spun_after(state, (i + 1) as nat) as u8)
}

/// `n` pseudo-random bytes of a shift-and-xor generator.
fn spun_bytes(state: &mut u64, n: usize) -> (r: Vec<u8>)
    ensures
        r@ == spun_draws(*old(state), n as nat),
        *final(state) == spun_after(*old(state), n as nat),
{
    let ghost all = spun_draws(*state, n as nat);
    let mut v: Vec<u8> = Vec::with_capacity(n);
    while v.len() < n
        invariant
            v@.len() <= n,
            all == spun_draws(*old(state), n as nat),
            *state == spun_after(*old(state), v@.len()),
            forall|j: int| 0 <= j < v@.len() ==> #[trigger] v@[j] == all[j],
        decreases n - v@.len(),
    {
        *state = *state ^ (*state << 13u64);
        *state = *state ^ (*state >> 7u64);
        *state = *state ^ (*state << 17u64);
        v.push(*state as u8);
    }
    assert(v@ =~= all);
    v
}

/// A table of `16 * m` pseudo-random entries below 128.
fn byte_table(state: &mut u64, m: usize) -> (lut: Vec<i8>)
    requires
        m <= MAX_M,
    ensures
        lut@ == Seq::new((16 * m) as nat, |i: int| (spun_draws(*old(state), (16 * m) as nat)[i] % 128) as i8),
        *final(state) == spun_after(*old(state), (16 * m) as nat),
{
    let raw = spun_bytes(state, 16 * m);
    let mut lut: Vec<i8> = Vec::with_capacity(16 * m);
    let mut i: usize = 0;
    while i < 16 * m
        invariant
            m <= MAX_M,
            i <= 16 * m,
            raw@.len() == 16 * m,
            lut@.len() == i,
            forall|j: int| 0 <= j < i ==> #[trigger] lut@[j] == (raw@[j] % 128) as i8,
        decreases 16 * m - i,
    {
        lut.push((raw[i] % 128) as i8);
        i = i + 1;
    }
    lut
}

/// The bound of the entries of a word table: `30000 / m`, at least 1.
spec fn word_cap(m: nat) -> nat {
    if m == 0 {
        30000
    } else if m > 30000 {
        1
    } else {
        30000nat / m
    }
}

/// A table of `16 * m` pseudo-random entries below that bound, so that no sum of `m` of them leaves
/// the range of a 16-bit word.
fn word_table(seed: &mut u64, m: usize) -> (lut: Vec<i16>)
    requires
        m <= MAX_M,
    ensures
        lut@ == Seq::new((16 * m) as nat, |i: int| (mixed(*old(seed), (16 * m) as nat)[i] as nat % word_cap(m as nat)) as i16),
        *final(seed) == seed_after(*old(seed), (16 * m) as nat),
{
    let share: usize = if m == 0 {
        30000
    } else {
        30000 / m
    };
    let cap: usize = if share == 0 {
        1
    } else {
        share
    };
    proof {
        let w = m as int;
        if 0 < w <= 30000 {
            assert(30000int / w >= 1) by (nonlinear_arith)
                requires
                    0 < w <= 30000,
            ;
        } else if w > 30000 {
            assert(30000int / w == 0) by (nonlinear_arith)
                requires
                    w > 30000,
            ;
        }
    }
    let ghost bound = word_cap(m as nat);
    assert(cap == bound);
    let raw = mixed_bytes(seed, 16 * m);
    let mut lut: Vec<i16> = Vec::with_capacity(16 * m);
    let mut i: usize = 0;
    while i < 16 * m
        invariant
            m <= MAX_M,
            i <= 16 * m,
            cap > 0,
            cap == bound,
            raw@.len() == 16 * m,
            lut@.len() == i,
            forall|j: int| 0 <= j < i ==> #[trigger] lut@[j] == (raw@[j] as nat % bound) as i16,
        decreases 16 * m - i,
    {
        lut.push((raw[i] as usize % cap) as i16);
        i = i + 1;
    }
    lut
}

/// Self-test: the byte-wide saturating kernel agrees with the scalar one on a random block.
pub fn selftest(m: usize) -> (ok: bool)
    requires
        m <= MAX_M,
    ensures
        ok,
{
    let mut seed: u64 = 0xabcd_1234;
    let block = mixed_bytes(&mut seed, m / 2 * 16);
    let raw = mixed_bytes(&mut seed, 16 * m);
    let mut lut: Vec<i8> = Vec::with_capacity(16 * m);
    let mut i: usize = 0;
    while i < 16 * m
        invariant
            m <= MAX_M,
            i <= 16 * m,
            raw@.len() == 16 * m,
            lut@.len() == i,
        decreases 16 * m - i,
    {
        lut.push((raw[i] as i32 % 41 - 20) as i8);
        i = i + 1;
    }
    let scalar = block_adc_scalar(&block, m, &lut);
    let mut out: [i8; 16] = [0; 16];
    block_adc_sse(&block, m, &lut, &mut out);
    let mut lane: usize = 0;
    while lane < 16
        invariant
            forall|j: int| 0 <= j < 16 ==> #[trigger] scalar@[j] == adc_saturating(lut@, block@, j as nat, (m / 2) as nat),
            forall|j: int| 0 <= j < 16 ==> #[trigger] out@[j] == adc_saturating(lut@, block@, j as nat, (m / 2) as nat),
        decreases 16 - lane,
    {
        if out[lane] as i32 != scalar[lane] {
            return false;
        }
        lane = lane + 1;
    }
    true
}

/// Two rows of scores are equal.
fn same_scores(a: &[i32; 16], b: &[i32; 16]) -> (same: bool)
    ensures
        same == (a@ == b@),
{
    let mut i: usize = 0;
    while i < 16
        invariant
            i <= 16,
            forall|j: int| 0 <= j < i ==> a@[j] == b@[j],
        decreases 16 - i,
    {
        if a[i] != b[i] {
            return false;
        }
        i = i + 1;
    }
    assert(a@ =~= b@);
    true
}

/// Self-test: the one-block int16 kernel agrees with the scalar one on a random block.
pub fn selftest_i16(m: usize) -> (ok: bool)
    requires
        m <= MAX_M,
    ensures
        ok,
{
    let mut seed: u64 = 0x51ed_1234;
    let block = mixed_bytes(&mut seed, m / 2 * 16);
    let lut = word_table(&mut seed, m);
    let mut a: [i32; 16] = [0; 16];
    let mut b: [i32; 16] = [0; 16];
    block_adc_i16(&block, m, &lut, &mut a);
    block_adc_i16_avx2(&block, m, &lut, &mut b);
    assert(a@ =~= b@);
    same_scores(&a, &b)
}

/// Self-test: the fast-scan kernel agrees with the scalar one on a random block.
pub fn selftest_i8_fast(m: usize) -> (ok: bool)
    requires
        m <= MAX_M,
    ensures
        ok,
{
    let mut state: u64 = 0x9e37_79b9_7f4a_7c15;
    let lut = byte_table(&mut state, m);
    let block = spun_bytes(&mut state, m / 2 * 16);
    let mut a: [i32; 16] = [0; 16];
    let mut b: [i32; 16] = [0; 16];
    block_adc_i8_i16acc(&block, m, &lut, &mut a);
    block_adc_i8_scalar(&block, m, &lut, &mut b);
    assert(a@ =~= b@);
    same_scores(&a, &b)
}

/// Self-test: the two-block int16 kernel agrees with the scalar one on both of two random blocks.
pub fn selftest_i16_avx512(m: usize) -> (ok: bool)
    requires
        m <= MAX_M,
    ensures
        ok,
{
    let mut seed: u64 = 0x9e37_1234;
    let b0 = mixed_bytes(&mut seed, m / 2 * 16);
    let b1 = mixed_bytes(&mut seed, m / 2 * 16);
    let lut = word_table(&mut seed, m);
    let mut s0: [i32; 16] = [0; 16];
    let mut s1: [i32; 16] = [0; 16];
    let mut o: [i32; 32] = [0; 32];
    block_adc_i16(&b0, m, &lut, &mut s0);
    block_adc_i16(&b1, m, &lut, &mut s1);
    block_adc_i16_avx512_x2(&b0, &b1, m, &lut, &mut o);
    let mut i: usize = 0;
    while i < 16
        invariant
            forall|j: int| 0 <= j < 16 ==> #[trigger] s0@[j] == adc_i16(lut@, b0@, 16, j as nat, (m / 2) as nat),
            forall|j: int| 0 <= j < 16 ==> #[trigger] s1@[j] == adc_i16(lut@, b1@, 16, j as nat, (m / 2) as nat),
            forall|j: int| 0 <= j < 16 ==> #[trigger] o@[j] == adc_i16(lut@, b0@, 16, j as nat, (m / 2) as nat),
            forall|j: int| 16 <= j < 32 ==> #[trigger] o@[j] == adc_i16(lut@, b1@, 16, (j - 16) as nat, (m / 2) as nat),
        decreases 16 - i,
    {
        assert(s1@[i as int] == adc_i16(lut@, b1@, 16, i as nat, (m / 2) as nat));
        assert(o@[16 + i] == adc_i16(lut@, b1@, 16, i as nat, (m / 2) as nat));
        if o[i] != s0[i] || o[16 + i] != s1[i] {
            return false;
        }
        i = i + 1;
    }
    true
}

/// Self-test: the four-block fast scan, in both of its layouts, agrees with the scalar kernel on
/// four random blocks.
pub fn selftest_i8_fast_avx512(m: usize) -> (ok: bool)
    requires
        m <= MAX_M,
    ensures
        ok,
{
    let mut state: u64 = 0x9e37_79b9_7f4a_7c15;
    let lut = byte_table(&mut state, m);
    let b0 = spun_bytes(&mut state, m / 2 * 16);
    let b1 = spun_bytes(&mut state, m / 2 * 16);
    let b2 = spun_bytes(&mut state, m / 2 * 16);
    let b3 = spun_bytes(&mut state, m / 2 * 16);
    let blocks: [&[u8]; 4] = [b0.as_slice(), b1.as_slice(), b2.as_slice(), b3.as_slice()];
    let mut a: [i32; 64] = [0; 64];
    assert forall|b: int| 0 <= b < 4 implies fits((#[trigger] blocks@[b])@.len(), m as nat, lut@.len()) by {
        assert(blocks@[b]@.len() == m / 2 * 16);
    }
    block_adc_i8_i16acc_avx512(blocks, m, &lut, &mut a);
    let mut sb: Vec<u8> = vec![0; m / 2 * 64];
    interleave4(&b0, &b1, &b2, &b3, m, sb.as_mut_slice());
    let mut il: [i32; 64] = [0; 64];
    block_adc_i8_i16acc_avx512_il(&sb, m, &lut, &mut il);
    let ghost views = seq![b0@, b1@, b2@, b3@];
    assert(interleaves(sb@, views, (m / 2) as nat));
    let mut sub: usize = 0;
    while sub < 4
        invariant
            m <= MAX_M,
            lut@.len() == 16 * m,
            forall|b: int| 0 <= b < 4 ==> (#[trigger] blocks@[b])@.len() == m / 2 * 16,
            views.len() == 4,
            forall|b: int| 0 <= b < 4 ==> (#[trigger] blocks@[b])@ == views[b],
            interleaves(sb@, views, (m / 2) as nat),
            forall|b: int, i: int| 0 <= b < 4 && 0 <= i < 16 ==> #[trigger] a@[16 * b + i] == adc_i8(lut@, blocks@[b]@, 16, i as nat, (m / 2) as nat),
            forall|i: int| 0 <= i < 64 ==> #[trigger] il@[i] == adc_i8(lut@, sb@, 64, i as nat, (m / 2) as nat),
        decreases 4 - sub,
    {
        let mut s: [i32; 16] = [0; 16];
        let blk: &[u8] = blocks[sub];
        assert(blocks@[sub as int]@.len() == m / 2 * 16);
        block_adc_i8_scalar(blk, m, &lut, &mut s);
        let mut i: usize = 0;
        while i < 16
            invariant
                sub < 4,
                views.len() == 4,
                blk@ == blocks@[sub as int]@,
                blk@ == views[sub as int],
                interleaves(sb@, views, (m / 2) as nat),
                forall|b: int, k: int| 0 <= b < 4 && 0 <= k < 16 ==> #[trigger] a@[16 * b + k] == adc_i8(lut@, blocks@[b]@, 16, k as nat, (m / 2) as nat),
                forall|k: int| 0 <= k < 64 ==> #[trigger] il@[k] == adc_i8(lut@, sb@, 64, k as nat, (m / 2) as nat),
                forall|k: int| 0 <= k < 16 ==> #[trigger] s@[k] == adc_i8(lut@, blk@, 16, k as nat, (m / 2) as nat),
            decreases 16 - i,
        {
            proof {
                law_interleaved_scores_agree(lut@, sb@, views, (m / 2) as nat, sub as int, i as int);
                assert(a@[16 * (sub as int) + i as int] == adc_i8(lut@, blocks@[sub as int]@, 16, i as nat, (m / 2) as nat));
            }
            if a[16 * sub + i] != s[i] || il[16 * sub + i] != s[i] {
                return false;
            }
            i = i + 1;
        }
        sub = sub + 1;
    }
    true
}

} // verus!
