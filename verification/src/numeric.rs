//! What the arithmetic on texts, doubles and bits says: pieces join back, roundings are nearest, roots are
//! the largest, and bits are counted one by one.

use crate::counted::law_half_even_is_nearest;
use crate::double::{double_of, half_even, lemma_root, lift, nearest_root, quotient, root, spare};
use crate::half::{half_exponent, half_size, nearest_half, single_exponent, single_size};
use crate::prune::lemma_spare_low;
use crate::simd::ones;
use crate::text::{is_digit, is_space, number, pieces, spelled, trimmed};
use vstd::arithmetic::power2::pow2;
use vstd::prelude::*;

verus! {

// ---------------------------------------------------------------- texts

/// Some pieces with a separator between them.
pub open spec fn joined(ps: Seq<Seq<char>>, sep: char) -> Seq<char>
    decreases ps.len(),
{
    if ps.len() == 0 {
        Seq::empty()
    } else if ps.len() == 1 {
        ps[0]
    } else {
        joined(ps.drop_last(), sep).push(sep) + ps.last()
    }
}

/// The pieces of a text hold no separator, and join back to the text.
pub proof fn law_pieces_join_back(s: Seq<char>, sep: char)
    ensures
        pieces(s, sep).len() >= 1,
        joined(pieces(s, sep), sep) == s,
        forall|i: int| 0 <= i < pieces(s, sep).len() ==> !(#[trigger] pieces(s, sep)[i]).contains(sep),
    decreases s.len(),
{
    let ps = pieces(s, sep);
    if s.len() == 0 {
        assert(ps[0] =~= s);
    } else {
        let t = s.drop_last();
        law_pieces_join_back(t, sep);
        let before = pieces(t, sep);
        assert(s =~= t.push(s.last()));
        if s.last() == sep {
            assert(ps.drop_last() =~= before);
            assert(joined(ps, sep) =~= s);
            assert forall|i: int| 0 <= i < ps.len() implies !(#[trigger] ps[i]).contains(sep) by {
                if i < before.len() {
                    assert(ps[i] == before[i]);
                }
            }
        } else {
            assert(ps.drop_last() =~= before.drop_last());
            assert(joined(ps, sep) =~= s);
            assert forall|i: int| 0 <= i < ps.len() implies !(#[trigger] ps[i]).contains(sep) by {
                if i < before.len() - 1 {
                    assert(ps[i] == before[i]);
                } else {
                    let old = before.last();
                    assert(!before[before.len() - 1].contains(sep));
                    if ps[i].contains(sep) {
                        let k = choose|k: int| 0 <= k < ps[i].len() && ps[i][k] == sep;
                        assert(old[k] == sep);
                    }
                }
            }
        }
    }
}

/// A trimmed text is the text without some white space around it, and begins and ends with something
/// else.
pub proof fn law_trimmed_text_has_no_outer_space(s: Seq<char>) -> (cut: (int, int))
    ensures
        0 <= cut.0 <= cut.1 <= s.len(),
        trimmed(s) == s.subrange(cut.0, cut.1),
        forall|i: int| 0 <= i < cut.0 || cut.1 <= i < s.len() ==> is_space(#[trigger] s[i]),
        trimmed(s).len() > 0 ==> !is_space(trimmed(s).first()) && !is_space(trimmed(s).last()),
    decreases s.len(),
{
    if s.len() == 0 {
        assert(s.subrange(0, 0) =~= s);
        (0, 0)
    } else if is_space(s.first()) {
        let t = s.subrange(1, s.len() as int);
        let c = law_trimmed_text_has_no_outer_space(t);
        assert(t.subrange(c.0, c.1) =~= s.subrange(c.0 + 1, c.1 + 1));
        assert forall|i: int| 0 <= i < c.0 + 1 || c.1 + 1 <= i < s.len() implies is_space(#[trigger] s[i]) by {
            if i > 0 {
                assert(t[i - 1] == s[i]);
            }
        }
        (c.0 + 1, c.1 + 1)
    } else if is_space(s.last()) {
        let t = s.drop_last();
        let c = law_trimmed_text_has_no_outer_space(t);
        assert(t.subrange(c.0, c.1) =~= s.subrange(c.0, c.1));
        assert forall|i: int| 0 <= i < c.0 || c.1 <= i < s.len() implies is_space(#[trigger] s[i]) by {
            if i < t.len() {
                assert(t[i] == s[i]);
            }
        }
        c
    } else {
        assert(s.subrange(0, s.len() as int) =~= s);
        (0, s.len() as int)
    }
}

/// A number is spelled by decimal digits, one more digit making ten of each before, with a plus sign in
/// front or without.
pub proof fn law_numbers_are_decimal(s: Seq<char>, c: char)
    requires
        is_digit(c),
    ensures
        number(seq![c]) == Some((c as nat - '0' as nat) as usize),
        number(s) matches Some(v) ==> (10 * v + (c as nat - '0' as nat) <= usize::MAX ==> number(s.push(c)) == Some((10 * v + (c as nat - '0' as nat)) as usize)),
        number(s) is Some && s[0] != '+' ==> number(seq!['+'] + s) == number(s),
        number(Seq::empty()) is None,
        number(s) is Some && !is_digit(s[0]) ==> s[0] == '+' && number(s.skip(1)) == number(s),
{
    let one = seq![c];
    assert(one.drop_last() =~= Seq::<char>::empty());
    assert(spelled(one) == c as nat - '0' as nat) by {
        reveal_with_fuel(spelled, 2);
    }
    if number(s) is Some {
        let t = if s.len() > 0 && s[0] == '+' {
            s.subrange(1, s.len() as int)
        } else {
            s
        };
        let u = s.push(c);
        let w = if u[0] == '+' {
            u.subrange(1, u.len() as int)
        } else {
            u
        };
        assert(w =~= t.push(c));
        assert(w.drop_last() =~= t);
        assert(spelled(w) == spelled(t) * 10 + (c as nat - '0' as nat));
        assert forall|i: int| 0 <= i < w.len() implies is_digit(#[trigger] w[i]) by {
            if i < t.len() {
                assert(is_digit(t[i]));
            }
        }
        let p = seq!['+'] + s;
        assert(p.subrange(1, p.len() as int) =~= s);
        if s[0] == '+' {
            assert(s.skip(1) =~= t);
            assert(is_digit(t[0]));
        } else {
            assert(is_digit(t[0]));
        }
    }
}

// ---------------------------------------------------------------- doubles

/// Rounding to a double keeps the leading fifty-three bits: the result is off by at most half a unit in
/// the last of them, and whole numbers of that many bits stay as they are.
pub proof fn law_doubles_keep_their_leading_bits(n: nat)
    ensures
        n < 0x20_0000_0000_0000 ==> double_of(n) == n,
        n >= 0x10_0000_0000_0000 ==> 0x10_0000_0000_0000 * pow2(spare(n)) <= n < 0x20_0000_0000_0000 * pow2(spare(n)),
        -(pow2(spare(n)) as int) <= 2 * (double_of(n) - n) <= pow2(spare(n)),
        double_of(n) % pow2(spare(n)) == 0,
{
    let p = pow2(spare(n));
    vstd::arithmetic::power2::lemma_pow2_pos(spare(n));
    vstd::arithmetic::power2::lemma2_to64();
    law_half_even_is_nearest(n, p);
    vstd::arithmetic::div_mod::lemma_mod_multiples_basic(half_even(n, p) as int, p as int);
    if n < 0x20_0000_0000_0000 {
        assert(p == 1);
        assert(half_even(n, 1) == n);
    }
    lemma_spare_high(n);
    if n >= 0x10_0000_0000_0000 {
        lemma_spare_low(n);
    }
}

proof fn lemma_spare_high(n: nat)
    ensures
        n < 0x20_0000_0000_0000 * pow2(spare(n)),
    decreases n,
{
    vstd::arithmetic::power2::lemma2_to64();
    if n >= 0x20_0000_0000_0000 {
        lemma_spare_high(n / 2);
        vstd::arithmetic::power2::lemma_pow2_unfold(spare(n));
    }
}

/// A quotient is scaled up until it has fifty-three bits before the point, and no further, and rounded to
/// the nearest.
pub proof fn law_quotients_are_nearest(num: nat, den: nat)
    requires
        num > 0,
        den > 0,
    ensures
        0x10_0000_0000_0000 * den <= num * pow2(lift(num, den)),
        lift(num, den) > 0 ==> num * pow2((lift(num, den) - 1) as nat) < 0x10_0000_0000_0000 * den,
        -(den as int) <= 2 * (quotient(num, den) * den - num * pow2(lift(num, den))) <= den,
{
    lemma_lift(num, den);
    law_half_even_is_nearest(num * pow2(lift(num, den)), den);
}

proof fn lemma_lift(num: nat, den: nat)
    requires
        num > 0,
        den > 0,
    ensures
        0x10_0000_0000_0000 * den <= num * pow2(lift(num, den)),
        lift(num, den) > 0 ==> num * pow2((lift(num, den) - 1) as nat) < 0x10_0000_0000_0000 * den,
    decreases
            (if num >= 0x10_0000_0000_0000 * den {
                0
            } else {
                0x10_0000_0000_0000 * den - num
            }),
{
    vstd::arithmetic::power2::lemma2_to64();
    if num < 0x10_0000_0000_0000 * den {
        lemma_lift(2 * num, den);
        let k = lift(2 * num, den);
        vstd::arithmetic::power2::lemma_pow2_unfold(k + 1);
        assert(num * pow2(k + 1) == (2 * num) * pow2(k)) by (nonlinear_arith)
            requires
                pow2(k + 1) == 2 * pow2(k),
        ;
        if k > 0 {
            vstd::arithmetic::power2::lemma_pow2_unfold(k);
            assert(num * pow2(k) == (2 * num) * pow2((k - 1) as nat)) by (nonlinear_arith)
                requires
                    pow2(k) == 2 * pow2((k - 1) as nat),
            ;
        } else {
            assert(num * pow2(0) == num) by (nonlinear_arith)
                requires
                    pow2(0) == 1,
            ;
        }
    } else {
        assert(num * pow2(0) == num) by (nonlinear_arith)
            requires
                pow2(0) == 1,
        ;
    }
}

/// A root is the largest whole number whose square does not pass, and the nearest root is off by less than
/// a half, which no root of a whole number is off by exactly.
pub proof fn law_roots_are_largest(y: nat)
    ensures
        root(y) * root(y) <= y < (root(y) + 1) * (root(y) + 1),
        4 * y < (2 * nearest_root(y) + 1) * (2 * nearest_root(y) + 1),
        nearest_root(y) > 0 ==> 4 * y > (2 * nearest_root(y) - 1) * (2 * nearest_root(y) - 1),
{
    lemma_root(y);
    let r = root(y) as int;
    assert((2 * r + 1) * (2 * r + 1) == 4 * (r * r + r) + 1 && (2 * r - 1) * (2 * r - 1) == 4 * (r * r - r) + 1 && (2 * (r + 1) + 1) * (2 * (r + 1) + 1) == 4 * ((r + 1) * (r + 1)) + 4 * (r + 1) + 1 && (2 * (r + 1) - 1) == 2 * r + 1) by (nonlinear_arith);
}

// ---------------------------------------------------------------- halves

/// The half that a single is rounded to is the nearest: it is off by at most half of the distance between
/// two halves of that size.
pub proof fn law_singles_round_to_the_nearest_half(x: u32)
    requires
        single_exponent(x) < 143,
    ensures
        nearest_half(x) <= 31 * 1024,
        ({
            let gap = if single_exponent(x) < 113 {
                pow2(125)
            } else {
                pow2(single_exponent(x) + 12)
            };
            -(gap as int) <= 2 * (half_size(nearest_half(x) as u16) - single_size(x)) <= gap
        }),
{
    let e = single_exponent(x);
    let m = (x % 0x80_0000) as nat;
    let h = nearest_half(x);
    vstd::arithmetic::power2::lemma2_to64();
    if e >= 113 {
        let q = half_even(m, 8192);
        law_half_even_is_nearest(m, 8192);
        assert(q <= 1024);
        let p = pow2((e - 1) as nat);
        vstd::arithmetic::power2::lemma_pow2_adds(13, (e - 1) as nat);
        assert(pow2(e + 12) == 8192 * p);
        if q < 1024 {
            assert(half_exponent(h as u16) == e - 112 && (h as u16) % 1024 == q);
            assert((half_exponent(h as u16) + 124) as nat == e + 12);
        } else {
            assert(half_exponent(h as u16) == e - 111 && (h as u16) % 1024 == 0);
            assert((half_exponent(h as u16) + 124) as nat == e + 13);
            vstd::arithmetic::power2::lemma_pow2_unfold(e + 13);
            assert(((e + 13) - 1) as nat == e + 12);
            assert((1024 + 0nat) * pow2(e + 13) == (1024 + q) * pow2(e + 12)) by (nonlinear_arith)
                requires
                    pow2(e + 13) == 2 * pow2(e + 12),
                    q == 1024,
            ;
        }
        assert(half_size(h as u16) == (1024 + q) * pow2(e + 12));
        lemma_scaled((1024 + q) * 8192, 0x80_0000 + m, p, 8192);
        assert((1024 + q) * pow2(e + 12) == ((1024 + q) * 8192) * p) by (nonlinear_arith)
            requires
                pow2(e + 12) == 8192 * p,
        ;
    } else if e >= 102 {
        let w = pow2((126 - e) as nat);
        let p = pow2((e - 1) as nat);
        vstd::arithmetic::power2::lemma_pow2_adds((126 - e) as nat, (e - 1) as nat);
        vstd::arithmetic::power2::lemma_pow2_pos((126 - e) as nat);
        assert(pow2(125) == w * p);
        law_half_even_is_nearest(0x80_0000 + m, w);
        assert(h == half_even(0x80_0000 + m, w));
        assert(w >= 8192 * 2) by {
            if e < 112 {
                vstd::arithmetic::power2::lemma_pow2_strictly_increases(14, (126 - e) as nat);
            }
        }
        assert(h <= 1024) by (nonlinear_arith)
            requires
                2 * (h * w - (0x80_0000 + m)) <= w,
                m < 0x80_0000,
                w >= 16384,
        ;
        assert(half_size(h as u16) == h * pow2(125)) by {
            if h == 1024 {
                assert(half_exponent(1024u16) == 1);
            } else {
                assert(half_exponent(h as u16) == 0 && (h as u16) % 1024 == h);
            }
        }
        lemma_scaled(h * w, 0x80_0000 + m, p, w);
        assert(h * pow2(125) == (h * w) * p) by (nonlinear_arith)
            requires
                pow2(125) == w * p,
        ;
    } else {
        assert(half_size(0u16) == 0) by {
            assert(0 * pow2(125) == 0) by (nonlinear_arith);
        }
        vstd::arithmetic::power2::lemma_pow2_adds(24, 100);
        vstd::arithmetic::power2::lemma_pow2_unfold(125);
        let s = single_size(x);
        assert(2 * s <= pow2(125)) by {
            if e == 0 {
                assert(pow2(100) >= 1) by {
                    vstd::arithmetic::power2::lemma_pow2_pos(100);
                }
            } else {
                let p = pow2((e - 1) as nat);
                assert(p <= pow2(100)) by {
                    if e < 101 {
                        vstd::arithmetic::power2::lemma_pow2_strictly_increases((e - 1) as nat, 100);
                    }
                }
                assert((0x80_0000 + m) * p <= 0x100_0000 * pow2(100)) by (nonlinear_arith)
                    requires
                        m < 0x80_0000,
                        p <= pow2(100),
                ;
            }
        }
    }
}

proof fn lemma_scaled(a: nat, b: nat, p: nat, w: nat)
    requires
        -(w as int) <= 2 * (a - b) <= w,
    ensures
        -((w * p) as int) <= 2 * (a * p - b * p) <= w * p,
{
    assert(2 * (a * p - b * p) == (2 * (a - b)) * p && -((w * p) as int) == (-(w as int)) * p) by (nonlinear_arith);
    assert((-(w as int)) * p <= (2 * (a - b)) * p <= w * p) by (nonlinear_arith)
        requires
            -(w as int) <= 2 * (a - b) <= w,
    ;
}

// ---------------------------------------------------------------- bits

/// The ones of a number are those of its half and its last bit.
pub proof fn law_ones_are_counted_bit_by_bit(x: nat)
    ensures
        ones(0) == 0,
        ones(2 * x) == ones(x),
        ones(2 * x + 1) == ones(x) + 1,
{
    assert((2 * x) / 2 == x && (2 * x) % 2 == 0);
    assert((2 * x + 1) / 2 == x && (2 * x + 1) % 2 == 1);
}

} // verus!
