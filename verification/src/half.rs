//! Half-precision numbers by their bits: the exact value of each half as a single, and the half
//! nearest to a single.

use crate::double::{half_even, round_half_even};
use vstd::arithmetic::power2::{lemma2_to64, lemma_pow2_adds, lemma_pow2_pos, lemma_pow2_unfold, pow2};
use vstd::prelude::*;

verus! {

/// The exponent field of a half.
pub open spec fn half_exponent(h: u16) -> nat {
    ((h / 1024) % 32) as nat
}

/// The exponent field of a single.
pub open spec fn single_exponent(x: u32) -> nat {
    ((x / 0x80_0000) % 256) as nat
}

/// The size of a finite half, counted in the smallest subnormal single.
pub open spec fn half_size(h: u16) -> nat {
    let m = (h % 1024) as nat;
    if half_exponent(h) == 0 {
        m * pow2(125)
    } else {
        (1024 + m) * pow2(half_exponent(h) + 124)
    }
}

/// The size of a finite single, counted in the smallest subnormal single.
pub open spec fn single_size(x: u32) -> nat {
    let m = (x % 0x80_0000) as nat;
    if single_exponent(x) == 0 {
        m
    } else {
        (0x80_0000 + m) * pow2((single_exponent(x) - 1) as nat)
    }
}

/// The bits without the sign of the half nearest to a single, the even one of two that are equally
/// near. A single beyond the largest half, infinite or not a number, gives infinity.
pub open spec fn nearest_half(x: u32) -> nat {
    let e = single_exponent(x);
    let m = (x % 0x80_0000) as nat;
    if e >= 143 {
        31 * 1024
    } else if e >= 113 {
        ((e - 112) * 1024) as nat + half_even(m, 8192)
    } else if e >= 102 {
        half_even(0x80_0000 + m, pow2((126 - e) as nat))
    } else {
        0
    }
}

proof fn lemma_half_even_exact(q: nat, den: nat)
    requires
        den > 0,
    ensures
        half_even(q * den, den) == q,
{
    vstd::arithmetic::div_mod::lemma_div_by_multiple(q as int, den as int);
    vstd::arithmetic::div_mod::lemma_mod_multiples_basic(q as int, den as int);
}

proof fn lemma_half_even_bound(num: nat, den: nat, top: nat)
    requires
        den > 0,
        num <= top * den,
    ensures
        half_even(num, den) <= top,
{
    vstd::arithmetic::div_mod::lemma_fundamental_div_mod(num as int, den as int);
    let q = num / den;
    let r = num % den;
    assert(q < top || (q == top && r == 0)) by (nonlinear_arith)
        requires
            num == den * q + r,
            num <= top * den,
            0 <= r < den,
            den > 0,
    ;
}

/// How far a subnormal half is from having its leading bit in the place of a normal one.
fn leading_gap(mant: u32) -> (g: u32)
    requires
        0 < mant < 1024,
    ensures
        1 <= g <= 10,
        1024 <= mant * pow2(g as nat) < 2048,
{
    let mut g: u32 = 0;
    let mut m: u32 = mant;
    proof {
        lemma2_to64();
    }
    while m < 1024
        invariant
            0 < mant < 1024,
            0 < m < 2048,
            g <= 10,
            m == mant * pow2(g as nat),
            pow2(g as nat) <= m,
        decreases 2048 - m,
    {
        proof {
            lemma_pow2_unfold((g + 1) as nat);
            assert(m * 2 == mant * (2 * pow2(g as nat))) by (nonlinear_arith)
                requires
                    m == mant * pow2(g as nat),
            ;
            if g == 10 {
                lemma2_to64();
                assert(false);
            }
        }
        m = m * 2;
        g = g + 1;
    }
    proof {
        if g == 0 {
            lemma2_to64();
            assert(m == mant);
        }
    }
    g
}

/// The single with the value of a half. Exact for every half: zero, subnormal, normal, infinite, and
/// what is not a number keeps its payload.
pub fn f16_to_f32(h: u16) -> (x: u32)
    ensures
        x / 0x8000_0000 == h / 0x8000,
        half_exponent(h) < 31 ==> single_exponent(x) < 255 && single_size(x) == half_size(h),
        half_exponent(h) == 31 ==> single_exponent(x) == 255 && x % 0x80_0000 == (h % 1024) * 8192,
{
    let sign: u32 = h as u32 / 0x8000;
    let exp: u32 = (h as u32 / 1024) % 32;
    let mant: u32 = h as u32 % 1024;
    let x: u32;
    if exp == 0 && mant == 0 {
        x = sign * 0x8000_0000;
    } else if exp == 0 {
        let g: u32 = leading_gap(mant);
        let mut m: u32 = mant;
        let mut i: u32 = 0;
        proof {
            lemma2_to64();
        }
        while i < g
            invariant
                i <= g,
                g <= 10,
                0 < mant < 1024,
                m == mant * pow2(i as nat),
                m <= 1024 * pow2(i as nat),
                pow2(i as nat) <= 1024,
            decreases g - i,
        {
            proof {
                lemma_pow2_unfold((i + 1) as nat);
                assert(m * 2 == mant * (2 * pow2(i as nat))) by (nonlinear_arith)
                    requires
                        m == mant * pow2(i as nat),
                ;
                if i + 1 <= 9 {
                    vstd::arithmetic::power2::lemma_pow2_strictly_increases((i + 1) as nat, 10);
                }
                lemma2_to64();
            }
            m = m * 2;
            i = i + 1;
        }
        x = sign * 0x8000_0000 + (113 - g) * 0x80_0000 + (m - 1024) * 8192;
        proof {
            lemma_fields(sign, (113 - g) as u32, ((m - 1024) * 8192) as u32, x);
            assert(0x80_0000 + (m - 1024) * 8192 == m * 8192);
            lemma_pow2_adds(g as nat, (112 - g) as nat);
            lemma_pow2_adds(13, 112);
            lemma2_to64();
            assert((m * 8192) * pow2((112 - g) as nat) == mant * pow2(125)) by (nonlinear_arith)
                requires
                    m == mant * pow2(g as nat),
                    pow2(g as nat) * pow2((112 - g) as nat) == pow2(112),
                    8192 * pow2(112) == pow2(125),
            ;
        }
    } else if exp == 31 {
        x = sign * 0x8000_0000 + 255 * 0x80_0000 + mant * 8192;
        proof {
            lemma_fields(sign, 255, (mant * 8192) as u32, x);
        }
    } else {
        x = sign * 0x8000_0000 + (exp + 112) * 0x80_0000 + mant * 8192;
        proof {
            lemma_fields(sign, (exp + 112) as u32, (mant * 8192) as u32, x);
            lemma_pow2_adds(13, (exp + 111) as nat);
            lemma2_to64();
            assert(((1024 + mant) * 8192) * pow2((exp + 111) as nat) == (1024 + mant) * pow2((exp + 124) as nat)) by (nonlinear_arith)
                requires
                    8192 * pow2((exp + 111) as nat) == pow2((exp + 124) as nat),
            ;
        }
    }
    x
}

/// The fields of a single written side by side are read back.
proof fn lemma_fields(sign: u32, e: u32, m: u32, x: u32)
    requires
        sign < 2,
        e < 256,
        m < 0x80_0000,
        x == sign * 0x8000_0000 + e * 0x80_0000 + m,
    ensures
        x / 0x8000_0000 == sign,
        single_exponent(x) == e,
        x % 0x80_0000 == m,
{
}

/// The half nearest to a single, with the sign of the single.
pub fn f32_to_f16(x: u32) -> (h: u16)
    ensures
        h == (x / 0x8000_0000) * 0x8000 + nearest_half(x),
        nearest_half(x) <= 0x7c00,
{
    let sign: u32 = x / 0x8000_0000;
    let e: u32 = (x / 0x80_0000) % 256;
    let m: u32 = x % 0x80_0000;
    let size: u32;
    if e >= 143 {
        size = 31 * 1024;
    } else if e >= 113 {
        proof {
            lemma_half_even_bound(m as nat, 8192, 1024);
        }
        size = (e - 112) * 1024 + round_half_even(m as u128, 8192) as u32;
    } else if e >= 102 {
        let mut den: u128 = 1 << 14u32;
        let mut k: u32 = 14;
        proof {
            lemma2_to64();
            assert(1u128 << 14u32 == 16384) by (bit_vector);
        }
        while k < 126 - e
            invariant
                14 <= k <= 126 - e,
                102 <= e < 113,
                den == pow2(k as nat),
                16384 <= den <= 0x100_0000,
            decreases 126 - e - k,
        {
            proof {
                lemma_pow2_unfold((k + 1) as nat);
                lemma2_to64();
                if k + 1 < 24 {
                    vstd::arithmetic::power2::lemma_pow2_strictly_increases((k + 1) as nat, 24);
                }
            }
            den = den * 2;
            k = k + 1;
        }
        proof {
            lemma_half_even_bound((0x80_0000 + m) as nat, den as nat, 1024);
        }
        size = round_half_even((0x80_0000 + m) as u128, den) as u32;
    } else {
        size = 0;
    }
    (sign * 0x8000 + size) as u16
}

/// A half that is a number comes back from its single unchanged.
pub proof fn law_halves_survive_singles(h: u16, x: u32)
    requires
        half_exponent(h) < 31 || h % 1024 == 0,
        x / 0x8000_0000 == h / 0x8000,
        half_exponent(h) < 31 ==> single_exponent(x) < 255 && single_size(x) == half_size(h),
        half_exponent(h) == 31 ==> single_exponent(x) == 255 && x % 0x80_0000 == (h % 1024) * 8192,
    ensures
        (x / 0x8000_0000) * 0x8000 + nearest_half(x) == h,
{
    let e = single_exponent(x);
    let m = (x % 0x80_0000) as nat;
    let f = half_exponent(h);
    let n = (h % 1024) as nat;
    assert(h == (h / 0x8000) * 0x8000 + f * 1024 + n);
    if f < 31 {
        if f == 0 {
            lemma_small_half(x, n);
        } else {
            lemma_normal_half(x, f, n);
        }
    }
}

/// A single whose size has `bits` bits has the matching exponent.
proof fn lemma_exponent_of(x: u32, top: nat, e: nat)
    requires
        single_exponent(x) < 255,
        e >= 1,
        0x80_0000 <= top < 0x100_0000,
        single_size(x) == top * pow2((e - 1) as nat),
    ensures
        single_exponent(x) == e,
        x % 0x80_0000 == top - 0x80_0000,
{
    let f = single_exponent(x);
    let m = (x % 0x80_0000) as nat;
    lemma_pow2_pos((e - 1) as nat);
    lemma2_to64();
    if f == 0 {
        assert(top * pow2((e - 1) as nat) >= top) by (nonlinear_arith)
            requires
                pow2((e - 1) as nat) >= 1,
        ;
        assert(false);
    } else if f < e {
        lemma_pow2_adds((e - f) as nat, (f - 1) as nat);
        lemma_pow2_unfold((e - f) as nat);
        lemma_pow2_pos((e - f - 1) as nat);
        lemma_pow2_pos((f - 1) as nat);
        assert(pow2((e - 1) as nat) == pow2((e - f) as nat) * pow2((f - 1) as nat));
        assert(top * pow2((e - 1) as nat) > (0x80_0000 + m) * pow2((f - 1) as nat)) by (nonlinear_arith)
            requires
                pow2((e - 1) as nat) == pow2((e - f) as nat) * pow2((f - 1) as nat),
                pow2((e - f) as nat) >= 2,
                pow2((f - 1) as nat) > 0,
                top >= 0x80_0000,
                m < 0x80_0000,
        ;
        assert(false);
    } else if f > e {
        lemma_pow2_adds((f - e) as nat, (e - 1) as nat);
        lemma_pow2_unfold((f - e) as nat);
        lemma_pow2_pos((f - e - 1) as nat);
        assert((0x80_0000 + m) * pow2((f - 1) as nat) > top * pow2((e - 1) as nat)) by (nonlinear_arith)
            requires
                pow2((f - 1) as nat) == pow2((f - e) as nat) * pow2((e - 1) as nat),
                pow2((f - e) as nat) >= 2,
                pow2((e - 1) as nat) > 0,
                top < 0x100_0000,
                m >= 0,
        ;
        assert(false);
    } else {
        assert(0x80_0000 + m == top) by (nonlinear_arith)
            requires
                (0x80_0000 + m) * pow2((e - 1) as nat) == top * pow2((e - 1) as nat),
                pow2((e - 1) as nat) > 0,
        ;
    }
}

proof fn lemma_normal_half(x: u32, f: nat, n: nat)
    requires
        single_exponent(x) < 255,
        1 <= f < 31,
        n < 1024,
        single_size(x) == (1024 + n) * pow2(f + 124),
    ensures
        nearest_half(x) == f * 1024 + n,
{
    lemma_pow2_adds(13, f + 111);
    lemma2_to64();
    assert((1024 + n) * pow2(f + 124) == ((1024 + n) * 8192) * pow2(f + 111)) by (nonlinear_arith)
        requires
            8192 * pow2(f + 111) == pow2(f + 124),
    ;
    lemma_exponent_of(x, (1024 + n) * 8192, f + 112);
    lemma_half_even_exact(n, 8192);
}

proof fn lemma_gap(n: nat) -> (g: nat)
    requires
        0 < n < 1024,
    ensures
        1 <= g <= 10,
        1024 <= n * pow2(g) < 2048,
    decreases 1024 - n,
{
    lemma2_to64();
    if n >= 512 {
        1
    } else {
        let k = lemma_gap(2 * n);
        lemma_pow2_unfold(k + 1);
        assert(n * (2 * pow2(k)) == (2 * n) * pow2(k)) by (nonlinear_arith);
        assert(k != 10) by {
            assert((2 * n) * 1024 >= 2048);
        }
        k + 1
    }
}

proof fn lemma_small_half(x: u32, n: nat)
    requires
        single_exponent(x) < 255,
        n < 1024,
        single_size(x) == n * pow2(125),
    ensures
        nearest_half(x) == n,
{
    if n == 0 {
        lemma_pow2_pos((single_exponent(x) - 1) as nat);
        if single_exponent(x) > 0 {
            assert((0x80_0000 + (x % 0x80_0000)) * pow2((single_exponent(x) - 1) as nat) > 0) by (nonlinear_arith)
                requires
                    pow2((single_exponent(x) - 1) as nat) > 0,
            ;
        }
    } else {
        let g = lemma_gap(n);
        lemma_pow2_adds(g, (125 - g) as nat);
        lemma_pow2_adds(13, (112 - g) as nat);
        lemma2_to64();
        let top = n * pow2(g) * 8192;
        assert(n * pow2(125) == top * pow2((112 - g) as nat)) by (nonlinear_arith)
            requires
                top == n * pow2(g) * 8192,
                pow2(125) == pow2(g) * pow2((125 - g) as nat),
                pow2((125 - g) as nat) == 8192 * pow2((112 - g) as nat),
        ;
        lemma_exponent_of(x, top, (113 - g) as nat);
        lemma_pow2_adds(g, 13);
        lemma_pow2_pos(g + 13);
        assert(top == n * pow2(g + 13)) by (nonlinear_arith)
            requires
                top == n * pow2(g) * 8192,
                pow2(g + 13) == pow2(g) * 8192,
        ;
        lemma_half_even_exact(n, pow2(g + 13));
    }
}

} // verus!
