//! Bit-quantised codes: a few bits per coordinate, packed from the lowest bit of the first byte
//! upwards, and the lanes in which they are stored beside two single-precision words.

use crate::bytes::{bytes32, law_words_come_back, le32, push_u32, read_u32};
use vstd::arithmetic::power2::{lemma2_to64, lemma_pow2_pos, lemma_pow2_unfold, pow2};
use vstd::prelude::*;

verus! {

/// The number that bits spell, the first bit the lowest.
pub open spec fn number(bits: Seq<bool>) -> nat
    decreases bits.len(),
{
    if bits.len() == 0 {
        0
    } else {
        (if bits[0] {
            1nat
        } else {
            0nat
        }) + 2 * number(bits.skip(1))
    }
}

/// Bit `k` of a number.
pub open spec fn bit(n: nat, k: nat) -> bool {
    (n / pow2(k)) % 2 == 1
}

/// Bit `pos` of a string of codes of `w` bits each; beyond the codes there are zeros.
pub open spec fn code_bit(codes: Seq<u32>, w: nat, pos: nat) -> bool {
    pos / w < codes.len() && bit(codes[(pos / w) as int] as nat, pos % w)
}

/// Bytes that hold `n` codes of `w` bits.
pub open spec fn code_len(n: nat, w: nat) -> nat {
    (n * w + 7) / 8
}

/// The bytes of a string of codes.
pub open spec fn packed_bits(codes: Seq<u32>, w: nat) -> Seq<u8> {
    Seq::new(code_len(codes.len(), w), |k: int| number(Seq::new(8, |j: int| code_bit(codes, w, (8 * k + j) as nat))) as u8)
}

/// Bit `pos` of a byte string.
pub open spec fn byte_bit(bytes: Seq<u8>, pos: nat) -> bool {
    bit(bytes[(pos / 8) as int] as nat, pos % 8)
}

/// Code `i` of a byte string that holds codes of `w` bits.
pub open spec fn code_of(bytes: Seq<u8>, w: nat, i: nat) -> nat {
    number(Seq::new(w, |b: int| byte_bit(bytes, (i * w + b) as nat)))
}

proof fn lemma_number_bound(s: Seq<bool>)
    ensures
        number(s) < pow2(s.len()),
    decreases s.len(),
{
    lemma2_to64();
    if s.len() > 0 {
        lemma_number_bound(s.skip(1));
        lemma_pow2_unfold(s.len());
    }
}

/// The bits of a spelt number are the bits that spell it.
proof fn lemma_bits_of_number(s: Seq<bool>, k: nat)
    requires
        k < s.len(),
    ensures
        bit(number(s), k) == s[k as int],
    decreases s.len(),
{
    lemma2_to64();
    let rest = number(s.skip(1));
    let low: nat = if s[0] {
        1
    } else {
        0
    };
    if k == 0 {
        assert(number(s) / pow2(0) == number(s)) by {
            assert(pow2(0) == 1);
            vstd::arithmetic::div_mod::lemma_div_basics(number(s) as int);
        }
    } else {
        lemma_bits_of_number(s.skip(1), (k - 1) as nat);
        lemma_halving(number(s), k);
        assert(number(s) / 2 == rest);
    }
}

/// Bit `k` of a number is bit `k - 1` of its half.
proof fn lemma_halving(n: nat, k: nat)
    requires
        k > 0,
    ensures
        n / pow2(k) == (n / 2) / pow2((k - 1) as nat),
{
    lemma_pow2_unfold(k);
    lemma_pow2_pos((k - 1) as nat);
    vstd::arithmetic::div_mod::lemma_div_denominator(n as int, 2, pow2((k - 1) as nat) as int);
}

/// A number below `2^w` is spelt by its `w` lowest bits.
proof fn lemma_number_of_bits(x: nat, w: nat)
    requires
        x < pow2(w),
    ensures
        number(Seq::new(w, |b: int| bit(x, b as nat))) == x,
    decreases w,
{
    lemma2_to64();
    let s = Seq::new(w, |b: int| bit(x, b as nat));
    if w > 0 {
        lemma_pow2_unfold(w);
        lemma_number_of_bits(x / 2, (w - 1) as nat);
        let t = Seq::new((w - 1) as nat, |b: int| bit(x / 2, b as nat));
        assert forall|b: int| 0 <= b < w - 1 implies s.skip(1)[b] == t[b] by {
            lemma_halving(x, (b + 1) as nat);
        }
        assert(s.skip(1) =~= t);
        assert(x / pow2(0) == x) by {
            assert(pow2(0) == 1);
            vstd::arithmetic::div_mod::lemma_div_basics(x as int);
        }
    }
}

/// The codes that were packed are read back.
pub proof fn law_packed_bits_come_back(codes: Seq<u32>, w: nat, i: nat)
    requires
        w > 0,
        i < codes.len(),
        codes[i as int] < pow2(w),
    ensures
        code_of(packed_bits(codes, w), w, i) == codes[i as int],
{
    let bytes = packed_bits(codes, w);
    let x = codes[i as int] as nat;
    let got = Seq::new(w, |b: int| byte_bit(bytes, (i * w + b) as nat));
    let want = Seq::new(w, |b: int| bit(x, b as nat));
    assert forall|b: int| 0 <= b < w implies got[b] == want[b] by {
        let pos = (i * w + b) as nat;
        assert(i * w + w <= codes.len() * w) by (nonlinear_arith)
            requires
                i < codes.len(),
        ;
        let k = (pos / 8) as int;
        let eight = Seq::new(8, |j: int| code_bit(codes, w, (8 * k + j) as nat));
        lemma2_to64();
        lemma_number_bound(eight);
        assert(bytes[k] as nat == number(eight));
        lemma_bits_of_number(eight, pos % 8);
        assert(8 * k + pos % 8 == pos);
        assert(eight[(pos % 8) as int] == code_bit(codes, w, pos));
        vstd::arithmetic::div_mod::lemma_fundamental_div_mod_converse(pos as int, w as int, i as int, b);
    }
    assert(got =~= want);
    lemma_number_of_bits(x, w);
}

fn bit_of(n: u32, k: u32) -> (r: bool)
    requires
        k < 32,
    ensures
        r == bit(n as nat, k as nat),
{
    proof {
        vstd::bits::lemma_u32_shr_is_div(n, k);
    }
    (n >> k) % 2 == 1
}

/// Pack codes of `w` bits each.
pub fn pack_bits(codes: &[u32], w: usize) -> (r: Vec<u8>)
    requires
        1 <= w <= 32,
        codes@.len() * w + 7 <= usize::MAX,
    ensures
        r@ == packed_bits(codes@, w as nat),
{
    let n: usize = codes.len();
    let len: usize = (n * w + 7) / 8;
    let mut out: Vec<u8> = Vec::with_capacity(len);
    let mut k: usize = 0;
    while k < len
        invariant
            k <= len,
            1 <= w <= 32,
            n == codes@.len(),
            n * w + 7 <= usize::MAX,
            len == (n * w + 7) / 8,
            out@.len() == k,
            forall|i: int| 0 <= i < k ==> #[trigger] out@[i] == packed_bits(codes@, w as nat)[i],
        decreases len - k,
    {
        let ghost eight = Seq::new(8, |j: int| code_bit(codes@, w as nat, (8 * k + j) as nat));
        let mut byte: u32 = 0;
        let mut j: usize = 8;
        proof {
            lemma2_to64();
        }
        while j > 0
            invariant
                j <= 8,
                k < len,
                1 <= w <= 32,
                n == codes@.len(),
                n * w + 7 <= usize::MAX,
                len == (n * w + 7) / 8,
                eight == Seq::new(8, |i: int| code_bit(codes@, w as nat, (8 * k + i) as nat)),
                byte == number(eight.skip(j as int)),
                byte < pow2((8 - j) as nat),
                pow2((8 - j) as nat) <= 256,
            decreases j,
        {
            j = j - 1;
            let pos: usize = 8 * k + j;
            let c: usize = pos / w;
            let one: bool = c < n && bit_of(codes[c], (pos % w) as u32);
            proof {
                assert(eight.skip(j as int).skip(1) =~= eight.skip(j + 1));
                assert(eight[j as int] == one);
                lemma2_to64();
                lemma_pow2_unfold((8 - j) as nat);
                lemma_number_bound(eight.skip(j as int));
                if j > 0 {
                    vstd::arithmetic::power2::lemma_pow2_strictly_increases((8 - j) as nat, 8);
                }
            }
            byte = 2 * byte + if one {
                1u32
            } else {
                0u32
            };
        }
        assert(eight.skip(0) =~= eight);
        out.push(byte as u8);
        k = k + 1;
    }
    assert(out@ =~= packed_bits(codes@, w as nat));
    out
}

/// Read `n` codes of `w` bits each.
pub fn unpack_bits(bytes: &[u8], w: usize, n: usize) -> (r: Vec<u32>)
    requires
        1 <= w <= 32,
        n * w + 7 <= usize::MAX,
        code_len(n as nat, w as nat) <= bytes@.len(),
    ensures
        r@.len() == n,
        forall|i: int| 0 <= i < n ==> #[trigger] r@[i] == code_of(bytes@, w as nat, i as nat),
{
    let mut out: Vec<u32> = Vec::with_capacity(n);
    let mut i: usize = 0;
    while i < n
        invariant
            i <= n,
            1 <= w <= 32,
            n * w + 7 <= usize::MAX,
            (n * w + 7) / 8 <= bytes@.len(),
            out@.len() == i,
            forall|p: int| 0 <= p < i ==> #[trigger] out@[p] == code_of(bytes@, w as nat, p as nat),
        decreases n - i,
    {
        assert(i * w + w <= n * w) by (nonlinear_arith)
            requires
                i < n,
        ;
        let base: usize = i * w;
        let ghost all = Seq::new(w as nat, |b: int| byte_bit(bytes@, (i * w + b) as nat));
        let mut code: u64 = 0;
        let mut b: usize = w;
        proof {
            lemma2_to64();
        }
        while b > 0
            invariant
                b <= w,
                1 <= w <= 32,
                base == i * w,
                base + w <= n * w,
                n * w + 7 <= usize::MAX,
                (n * w + 7) / 8 <= bytes@.len(),
                all == Seq::new(w as nat, |k: int| byte_bit(bytes@, (i * w + k) as nat)),
                code == number(all.skip(b as int)),
                code < pow2((w - b) as nat),
                pow2((w - b) as nat) <= 0x1_0000_0000,
            decreases b,
        {
            b = b - 1;
            let pos: usize = base + b;
            let one: bool = bit_of(bytes[pos / 8] as u32, (pos % 8) as u32);
            proof {
                assert(all.skip(b as int).skip(1) =~= all.skip(b + 1));
                assert(all[b as int] == one);
                lemma2_to64();
                lemma_pow2_unfold((w - b) as nat);
                lemma_number_bound(all.skip(b as int));
                if w - b < 32 {
                    vstd::arithmetic::power2::lemma_pow2_strictly_increases((w - b) as nat, 32);
                }
            }
            code = 2 * code + if one {
                1u64
            } else {
                0u64
            };
        }
        assert(all.skip(0) =~= all);
        out.push(code as u32);
        i = i + 1;
    }
    out
}

/// A lane: the code of a point, then the bits of its two single-precision factors.
pub open spec fn lane_bytes(code: Seq<u8>, shift: u32, scale: u32) -> Seq<u8> {
    code + bytes32(shift) + bytes32(scale)
}

/// Lane `j` of a block whose codes have `len` bytes.
pub open spec fn lane_at(block: Seq<u8>, len: nat, j: nat) -> Seq<u8> {
    block.subrange((j * (len + 8)) as int, (j * (len + 8) + len + 8) as int)
}

/// Append a lane to a block.
pub fn push_lane(out: &mut Vec<u8>, code: &[u8], shift: u32, scale: u32)
    ensures
        final(out)@ == old(out)@ + lane_bytes(code@, shift, scale),
{
    let ghost start = out@;
    let n: usize = code.len();
    let mut i: usize = 0;
    while i < n
        invariant
            i <= n,
            n == code@.len(),
            out@ =~= start + code@.take(i as int),
        decreases n - i,
    {
        out.push(code[i]);
        i = i + 1;
    }
    assert(code@.take(n as int) =~= code@);
    push_u32(out, shift);
    push_u32(out, scale);
    assert(out@ =~= start + lane_bytes(code@, shift, scale));
}

/// The code and the two factors of a lane.
pub fn read_lane(block: &[u8], len: usize, j: usize) -> (r: (Vec<u8>, u32, u32))
    requires
        (j + 1) * (len + 8) <= block@.len(),
    ensures
        r.0@ == lane_at(block@, len as nat, j as nat).take(len as int),
        r.1 == le32(lane_at(block@, len as nat, j as nat).subrange(len as int, len + 4)),
        r.2 == le32(lane_at(block@, len as nat, j as nat).subrange(len + 4, len + 8)),
{
    let blen: usize = block.len();
    proof {
        assert((j + 1) * (len + 8) == j * (len + 8) + len + 8) by (nonlinear_arith);
        assert(j * (len + 8) >= 0) by (nonlinear_arith);
        assert(len + 8 <= (j + 1) * (len + 8)) by (nonlinear_arith);
    }
    let base: usize = j * (len + 8);
    let code = vstd::slice::slice_to_vec(vstd::slice::slice_subrange(block, base, base + len));
    let ghost lane = lane_at(block@, len as nat, j as nat);
    assert(lane.take(len as int) =~= block@.subrange(base as int, base + len));
    assert(lane.subrange(len as int, len + 4) =~= block@.subrange(base + len, base + len + 4));
    assert(lane.subrange(len + 4, len + 8) =~= block@.subrange(base + len + 4, base + len + 8));
    (code, read_u32(block, base + len), read_u32(block, base + len + 4))
}

/// The lanes of a block are read back as they were appended.
pub proof fn law_lanes_come_back(before: Seq<u8>, after: Seq<u8>, code: Seq<u8>, shift: u32, scale: u32, j: nat)
    requires
        before.len() == j * (code.len() + 8),
    ensures
        ({
            let lane = lane_at(before + lane_bytes(code, shift, scale) + after, code.len(), j);
            &&& lane.take(code.len() as int) == code
            &&& le32(lane.subrange(code.len() as int, code.len() as int + 4)) == shift
            &&& le32(lane.subrange(code.len() as int + 4, code.len() as int + 8)) == scale
        }),
{
    let n = code.len();
    let all = before + lane_bytes(code, shift, scale) + after;
    let lane = lane_at(all, n, j);
    law_words_come_back(shift, 0);
    law_words_come_back(scale, 0);
    assert(lane =~= lane_bytes(code, shift, scale));
    assert(lane.take(n as int) =~= code);
    assert(lane.subrange(n as int, n as int + 4) =~= bytes32(shift));
    assert(lane.subrange(n as int + 4, n as int + 8) =~= bytes32(scale));
}

} // verus!
