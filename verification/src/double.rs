//! The few binary64 results that the search presets rest on, computed on integers: each
//! operation rounds to fifty-three significant bits, ties to even.

use vstd::arithmetic::power2::pow2;
use vstd::prelude::*;

verus! {

/// The whole number nearest to `num / den`, the even one of two that are equally near.
pub open spec fn half_even(num: nat, den: nat) -> nat {
    let q = num / den;
    let r = num % den;
    if 2 * r < den || (2 * r == den && q % 2 == 0) {
        q
    } else {
        q + 1
    }
}

/// How many bits a whole number has beyond the fifty-three that a double keeps.
pub open spec fn spare(n: nat) -> nat
    decreases n,
{
    if n < 0x20_0000_0000_0000 {
        0
    } else {
        1 + spare(n / 2)
    }
}

/// The double nearest to a whole number.
pub open spec fn double_of(n: nat) -> nat {
    half_even(n, pow2(spare(n))) * pow2(spare(n))
}

/// By how many bits `num` is raised for its quotient by `den` to have fifty-three bits before the
/// point; none if it has them already.
pub open spec fn lift(num: nat, den: nat) -> nat
    decreases
            (if num >= 0x10_0000_0000_0000 * den {
                0
            } else {
                0x10_0000_0000_0000 * den - num
            }),
{
    if num == 0 || num >= 0x10_0000_0000_0000 * den {
        0
    } else {
        1 + lift(2 * num, den)
    }
}

/// The double nearest to `num / den`, counted in units of `1 / 2^lift(num, den)`.
pub open spec fn quotient(num: nat, den: nat) -> nat {
    half_even(num * pow2(lift(num, den)), den)
}

/// The whole part of the square root.
pub open spec fn root(y: nat) -> nat
    decreases y,
{
    if y == 0 {
        0
    } else {
        let r = root((y - 1) as nat);
        if (r + 1) * (r + 1) <= y {
            r + 1
        } else {
            r
        }
    }
}

/// The whole number nearest to the square root.
pub open spec fn nearest_root(y: nat) -> nat {
    if y > root(y) * root(y) + root(y) {
        root(y) + 1
    } else {
        root(y)
    }
}

pub proof fn lemma_root(y: nat)
    ensures
        root(y) * root(y) <= y < (root(y) + 1) * (root(y) + 1),
    decreases y,
{
    if y > 0 {
        lemma_root((y - 1) as nat);
        let r = root((y - 1) as nat);
        let next = r + 1;
        assert(next * next < (next + 1) * (next + 1)) by (nonlinear_arith);
        if next * next <= y {
            assert(root(y) == next);
        } else {
            assert(root(y) == r);
        }
    } else {
        assert(root(y) == 0);
        assert(0nat * 0nat == 0 && (0nat + 1) * (0nat + 1) == 1) by (nonlinear_arith);
    }
}

proof fn lemma_root_is(y: nat, r: nat)
    requires
        r * r <= y < (r + 1) * (r + 1),
    ensures
        root(y) == r,
{
    lemma_root(y);
    let s = root(y);
    if s < r {
        assert((s + 1) * (s + 1) <= r * r) by (nonlinear_arith)
            requires
                s + 1 <= r,
        ;
    }
    if r < s {
        assert((r + 1) * (r + 1) <= s * s) by (nonlinear_arith)
            requires
                r + 1 <= s,
        ;
    }
}

proof fn lemma_pow2_next(e: nat)
    ensures
        pow2(e + 1) == 2 * pow2(e),
{
    vstd::arithmetic::power2::lemma_pow2_unfold(e + 1);
}

/// The whole number nearest to `num / den`, ties to even.
pub fn round_half_even(num: u128, den: u128) -> (r: u128)
    requires
        den > 0,
    ensures
        r == half_even(num as nat, den as nat),
{
    let q: u128 = num / den;
    let r: u128 = num % den;
    if r < den - r || (r == den - r && q % 2 == 0) {
        q
    } else {
        assert(q < u128::MAX) by (nonlinear_arith)
            requires
                q == num / den,
                r == num % den,
                den > 0,
                r >= den - r,
                num <= u128::MAX,
        {
            assert(num == q * den + r);
            assert(r >= 1);
            assert(q * den >= q);
        }
        q + 1
    }
}

/// The double nearest to a whole number.
pub fn nearest_double(n: u128) -> (r: u128)
    requires
        n < 0x8000_0000_0000_0000_0000_0000_0000_0000,
    ensures
        r == double_of(n as nat),
        2 * r <= 3 * n,
{
    let mut m: u128 = n;
    let mut unit: u128 = 1;
    let ghost mut s: nat = 0;
    proof {
        vstd::arithmetic::power2::lemma2_to64();
    }
    while m >= 0x20_0000_0000_0000
        invariant
            n < 0x8000_0000_0000_0000_0000_0000_0000_0000,
            s + spare(m as nat) == spare(n as nat),
            unit == pow2(s),
            m * unit <= n,
            n < (m + 1) * unit,
            unit >= 1,
            unit > 1 ==> m >= 0x10_0000_0000_0000,
        decreases m,
    {
        let ghost big = m;
        let ghost old_unit = unit;
        assert(unit < 0x400_0000_0000_0000_0000) by (nonlinear_arith)
            requires
                m >= 0x20_0000_0000_0000,
                m * unit <= n,
                n < 0x8000_0000_0000_0000_0000_0000_0000_0000,
        ;
        m = m / 2;
        unit = unit * 2;
        proof {
            lemma_pow2_next(s);
            s = s + 1;
            assert(m * unit <= n && n < (m + 1) * unit) by (nonlinear_arith)
                requires
                    m == big / 2,
                    unit == old_unit * 2,
                    big * old_unit <= n,
                    n < (big + 1) * old_unit,
            {
                assert(2 * m <= big <= 2 * m + 1);
                assert((2 * m) * old_unit <= big * old_unit);
                assert((big + 1) * old_unit <= (2 * m + 2) * old_unit);
                assert(m * unit == (2 * m) * old_unit);
                assert((m + 1) * unit == (2 * m + 2) * old_unit);
            }
        }
    }
    assert(s == spare(n as nat));
    let q: u128 = round_half_even(n, unit);
    assert(2 * (q * unit) <= 3 * n) by (nonlinear_arith)
        requires
            q == half_even(n as nat, unit as nat),
            unit >= 1,
            m * unit <= n,
            unit > 1 ==> m >= 0x10_0000_0000_0000,
    {
        let w = n as int / unit as int;
        let r = n as int % unit as int;
        assert(n == w * unit + r);
        if q == w + 1 {
            assert(2 * r >= unit);
            assert(q * unit == w * unit + unit);
            if unit > 1 {
                assert(m * unit >= unit);
                assert(unit <= n);
            }
            assert(q * unit - n <= r);
            assert(2 * (q * unit - n) <= unit);
        } else {
            assert(q * unit == w * unit);
        }
    }
    q * unit
}

/// A quotient rounded to a double, counted in units of `1 / unit`, and that unit, a power of two.
pub fn divide(num: u64, den: u128) -> (r: (u128, u128))
    requires
        0 < num,
        num < den,
        den <= 0x2_0000_0000_0000_0000,
    ensures
        r.0 == quotient(num as nat, den as nat),
        r.1 == pow2(lift(num as nat, den as nat)),
        r.0 <= 0x20_0000_0000_0000,
        0x10_0000_0000_0000 * den <= num * r.1 < 0x20_0000_0000_0000 * den,
{
    let mut raised: u128 = num as u128;
    let mut unit: u128 = 1;
    let ghost mut e: nat = 0;
    proof {
        vstd::arithmetic::power2::lemma2_to64();
        assert(num * 1 == num) by (nonlinear_arith);
    }
    let bound: u128 = 0x10_0000_0000_0000 * den;
    while raised < bound
        invariant
            bound == 0x10_0000_0000_0000 * den,
            0 < num < den,
            den <= 0x2_0000_0000_0000_0000,
            e + lift(raised as nat, den as nat) == lift(num as nat, den as nat),
            unit == pow2(e),
            raised == num * unit,
            unit >= 1,
            raised < 2 * bound,
            unit <= raised,
        decreases
            (if raised >= bound {
                0
            } else {
                bound - raised
            }),
    {
        let ghost old_unit = unit;
        proof {
            lemma_pow2_next(e);
            e = e + 1;
            assert(raised * 2 == num * (old_unit * 2)) by (nonlinear_arith)
                requires
                    raised == num * old_unit,
            ;
        }
        raised = raised * 2;
        unit = unit * 2;
    }
    assert(e == lift(num as nat, den as nat));
    let q: u128 = round_half_even(raised, den);
    proof {
        let w = raised as int / den as int;
        assert(w < 0x20_0000_0000_0000) by (nonlinear_arith)
            requires
                w == raised as int / den as int,
                raised < 0x20_0000_0000_0000 * den,
                den > 0,
        ;
        assert(num * pow2(e) == num * unit);
    }
    (q, unit)
}

/// The whole number nearest to a square root.
pub fn round_root(y: u128) -> (r: u128)
    requires
        y < 0x4000_0000_0000_0000_0000_0000_0000,
    ensures
        r == nearest_root(y as nat),
        r <= 0x80_0000_0000_0000,
{
    let mut r: u128 = 0;
    let mut step: u128 = 0x80_0000_0000_0000;
    proof {
        vstd::arithmetic::power2::lemma2_to64_rest();
        assert(step == pow2(55));
    }
    assert(0x80_0000_0000_0000 * 0x80_0000_0000_0000 == 0x4000_0000_0000_0000_0000_0000_0000)
        by (nonlinear_arith);
    while step > 1
        invariant
            r * r <= y,
            y < (r + step) * (r + step),
            y < 0x4000_0000_0000_0000_0000_0000_0000,
            step >= 1,
            r + step <= 0x80_0000_0000_0000,
            step > 1 ==> step % 2 == 0,
            exists|e: nat| step == pow2(e),
        decreases step,
    {
        let ghost e = choose|e: nat| step == pow2(e);
        let half: u128 = step / 2;
        proof {
            vstd::arithmetic::power2::lemma2_to64();
            assert(e > 0);
            lemma_pow2_next((e - 1) as nat);
            assert(half == pow2((e - 1) as nat));
            if half > 1 {
                assert(e - 1 > 0);
                lemma_pow2_next((e - 2) as nat);
            }
        }
        let mid: u128 = r + half;
        assert(mid * mid <= 0x80_0000_0000_0000 * 0x80_0000_0000_0000) by (nonlinear_arith)
            requires
                mid <= 0x80_0000_0000_0000,
        ;
        if mid * mid <= y {
            r = mid;
        }
        step = half;
    }
    assert(step == 1);
    proof {
        lemma_root_is(y as nat, r as nat);
    }
    assert(r * r + r <= 0x80_0000_0000_0000 * 0x80_0000_0000_0000 + 0x80_0000_0000_0000)
        by (nonlinear_arith)
        requires
            r <= 0x80_0000_0000_0000,
    ;
    if y > r * r + r {
        r + 1
    } else {
        r
    }
}

} // verus!
