//! What the reports, means, listings and roundings say of their inputs.

use crate::double::half_even;
use crate::dump::{held, law_every_held_point_is_listed, slot_pairs};
use crate::ivf::{filled_cells, fullest_cell};
use crate::layout::{coord_total, mean_coordinate, rounded};
use crate::order::{ascending, lemma_ascending, sorted, Ranked};
use crate::pq::{adc_i16, adc_i8, adc_saturating};
use crate::report::{first_ten, hits, live_ids, neighbour_row, others, total_hits, Truth};
use crate::rerank::NO_POINT;
use crate::sidecar::{outliers, sampled};
use crate::spill::spill_width;
use crate::stream::{home_cells, without_repeats};
use crate::training::{law_level_counts_nest, level_count};
use vstd::prelude::*;

verus! {

// ---------------------------------------------------------------- reports

/// The hits of a list are its entries that are among the true neighbours.
pub proof fn law_hits_are_the_true_entries(s: Seq<u32>, truth: Seq<u32>)
    ensures
        hits(s, truth) == s.filter(|x: u32| truth.contains(x)).len(),
    decreases s.len(),
{
    reveal(Seq::filter);
    if s.len() > 0 {
        law_hits_are_the_true_entries(s.drop_last(), truth);
    }
}

/// A list of true neighbours is all hits, and a list of others none.
pub proof fn law_perfect_and_empty_hits(s: Seq<u32>, truth: Seq<u32>)
    ensures
        hits(s, truth) <= s.len(),
        (forall|i: int| 0 <= i < s.len() ==> truth.contains(#[trigger] s[i])) ==> hits(s, truth) == s.len(),
        (forall|i: int| 0 <= i < s.len() ==> !truth.contains(#[trigger] s[i])) ==> hits(s, truth) == 0,
    decreases s.len(),
{
    if s.len() > 0 {
        let t = s.drop_last();
        law_perfect_and_empty_hits(t, truth);
        assert(s[s.len() - 1] == s.last());
        assert forall|i: int| 0 <= i < t.len() implies t[i] == s[i] by {
        }
        if forall|i: int| 0 <= i < s.len() ==> truth.contains(#[trigger] s[i]) {
            assert forall|i: int| 0 <= i < t.len() implies truth.contains(#[trigger] t[i]) by {
                assert(truth.contains(s[i]));
            }
        }
        if forall|i: int| 0 <= i < s.len() ==> !truth.contains(#[trigger] s[i]) {
            assert forall|i: int| 0 <= i < t.len() implies !truth.contains(#[trigger] t[i]) by {
                assert(!truth.contains(s[i]));
            }
        }
    }
}

/// The hits of a run add up, query by query, those among the first ten of the results and of the truth.
pub proof fn law_recall_adds_up(res: Seq<Vec<u32>>, truth: Truth, n: nat)
    ensures
        total_hits(res, truth, 0) == 0,
        total_hits(res, truth, n + 1) == total_hits(res, truth, n) + (if res[n as int]@.len() < 10 {
            res[n as int]@
        } else {
            res[n as int]@.take(10)
        }).filter(|x: u32| truth.ids@.subrange(n * truth.k, n * truth.k + 10).contains(x)).len(),
{
    law_hits_are_the_true_entries(first_ten(res[n as int]@), truth.top(n as int));
}

/// The live ids of a list are its entries that are alive, in order.
pub proof fn law_live_ids_are_the_live_entries(s: Seq<u32>, live: Seq<bool>)
    ensures
        live_ids(s, live) == s.filter(|x: u32| x < live.len() && live[x as int]),
    decreases s.len(),
{
    reveal(Seq::filter);
    if s.len() > 0 {
        law_live_ids_are_the_live_entries(s.drop_last(), live);
    }
}

proof fn lemma_others(res: Seq<u32>, own: u32, k: nat)
    ensures
        ({
            let all = res.filter(|x: u32| x != own);
            others(res, own, k) == (if all.len() < k {
                all
            } else {
                all.take(k as int)
            })
        }),
    decreases res.len(),
{
    reveal(Seq::filter);
    let f = |x: u32| x != own;
    let all = res.filter(f);
    if res.len() > 0 {
        let t = res.drop_last();
        lemma_others(t, own, k);
        let before = t.filter(f);
        if res.last() != own {
            assert(all == before.push(res.last()));
            if before.len() >= k {
                assert(all.take(k as int) =~= before.take(k as int));
            } else {
                assert(all.take(all.len() as int) =~= all);
            }
        } else {
            assert(all == before);
        }
    } else {
        assert(all =~= Seq::<u32>::empty());
        if k == 0 {
            assert(all.take(0) =~= Seq::<u32>::empty());
        }
    }
}

/// The neighbour row of a point is its results without the point itself, in order; the last of them fills
/// up what is missing, or the point itself where there is none.
pub proof fn law_neighbour_rows_keep_their_order(res: Seq<u32>, own: u32, k: nat, i: int)
    requires
        0 <= i < k,
    ensures
        ({
            let all = res.filter(|x: u32| x != own);
            neighbour_row(res, own, k)[i] == (if i < all.len() {
                all[i]
            } else if all.len() > 0 {
                all.last()
            } else {
                own
            })
        }),
        neighbour_row(res, own, k).len() == k,
{
    lemma_others(res, own, k);
}

// ---------------------------------------------------------------- means and roundings

/// The mean of a coordinate is rounded to the nearest whole number, halves away from zero, and a mean of
/// -127.5 or less counts as -127.
pub proof fn law_means_are_nearest(data: Seq<i8>, d: nat, ids: Seq<u32>, k: int)
    requires
        ids.len() > 0,
    ensures
        ({
            let n = ids.len() as int;
            let s = coord_total(data, d, ids, k, ids.len());
            let m = mean_coordinate(data, d, ids, k);
            &&& -127 <= m <= 127
            &&& -n <= 2 * (m * n - s)
            &&& m > -127 ==> 2 * (m * n - s) <= n
            &&& 2 * (m * n - s) == n ==> s >= 0 || m == -127
            &&& 2 * (m * n - s) == -n ==> s < 0
        }),
{
    let n = ids.len() as int;
    let s = coord_total(data, d, ids, k, ids.len());
    let m = mean_coordinate(data, d, ids, k);
    lemma_total_bound(data, d, ids, k, ids.len());
    let r = rounded(s, n);
    lemma_rounded(s, n);
    assert(r <= 127) by (nonlinear_arith)
        requires
            s <= 127 * n,
            2 * (r * n - s) <= n,
            n > 0,
    ;
    if r < -127 {
        assert(m == -127);
        assert(r >= -128) by (nonlinear_arith)
            requires
                s >= -128 * n,
                -n <= 2 * (r * n - s),
                n > 0,
        ;
        assert(r * n == -128 * n) by (nonlinear_arith)
            requires
                r == -128,
        ;
        assert(m * n == -127 * n) by (nonlinear_arith)
            requires
                m == -127,
        ;
    } else {
        assert(m == r);
    }
}

proof fn lemma_total_bound(data: Seq<i8>, d: nat, ids: Seq<u32>, k: int, n: nat)
    ensures
        -128 * n <= coord_total(data, d, ids, k, n) <= 127 * n,
    decreases n,
{
    if n > 0 {
        lemma_total_bound(data, d, ids, k, (n - 1) as nat);
    }
}

proof fn lemma_rounded(s: int, c: int)
    requires
        c > 0,
    ensures
        -c <= 2 * (rounded(s, c) * c - s) <= c,
        2 * (rounded(s, c) * c - s) == c ==> s >= 0,
        2 * (rounded(s, c) * c - s) == -c ==> s < 0,
{
    let a = if s >= 0 {
        s
    } else {
        -s
    };
    let q = (2 * a + c) / (2 * c);
    vstd::arithmetic::div_mod::lemma_fundamental_div_mod(2 * a + c, 2 * c);
    let e = (2 * a + c) % (2 * c);
    assert(0 <= e < 2 * c);
    assert(2 * c * q == 2 * (q * c)) by (nonlinear_arith);
    assert((-q) * c == -(q * c)) by (nonlinear_arith);
}

/// Rounding to the nearest whole number: none is nearer, and of two that are equally near the even one is
/// taken.
pub proof fn law_half_even_is_nearest(num: nat, den: nat)
    requires
        den > 0,
    ensures
        -den <= 2 * (half_even(num, den) * den - num) <= den,
        2 * (half_even(num, den) * den - num) == den ==> half_even(num, den) % 2 == 0,
        2 * (half_even(num, den) * den - num) == -den ==> half_even(num, den) % 2 == 0,
{
    vstd::arithmetic::div_mod::lemma_fundamental_div_mod(num as int, den as int);
    let q = num / den;
    assert(den * q == q * den && (q + 1) * den == q * den + den) by (nonlinear_arith);
}

/// The cells of a level are the largest multiple of those above that does not pass the asked number, or as
/// many as above.
pub proof fn law_level_counts_are_as_large_as_asked(asked: Seq<usize>, l: nat)
    requires
        l < asked.len(),
    ensures
        l == 0 ==> level_count(asked, l) == (if asked[0] == 0 { 1 } else { asked[0] as nat }),
        l > 0 ==> level_count(asked, l) + level_count(asked, (l - 1) as nat) > asked[l as int],
{
    if l > 0 {
        law_level_counts_nest(asked, l);
        let up = level_count(asked, (l - 1) as nat);
        let a = asked[l as int] as nat;
        vstd::arithmetic::div_mod::lemma_fundamental_div_mod(a as int, up as int);
        if a / up <= 1 {
            let f = a / up;
            assert(up * f <= up) by (nonlinear_arith)
                requires
                    f <= 1,
            ;
            assert(up * 1 == up);
        }
    }
}

// ---------------------------------------------------------------- listings

/// Each point of the slots is listed with its cell, in the order of the slots.
pub proof fn law_listing_follows_the_slots(slot_orig: Seq<u32>, from: int, to: int, cell: u32, s: int)
    requires
        from <= s < to,
        slot_orig[s] != NO_POINT,
    ensures
        held(slot_orig, from, s) < held(slot_orig, from, to),
        slot_pairs(slot_orig, from, to, cell)[2 * held(slot_orig, from, s) as int] == slot_orig[s],
        slot_pairs(slot_orig, from, to, cell)[2 * held(slot_orig, from, s) as int + 1] == cell,
    decreases to - from,
{
    law_every_held_point_is_listed(slot_orig, from, to - 1, cell);
    if s < to - 1 {
        law_listing_follows_the_slots(slot_orig, from, to - 1, cell, s);
    }
}

/// The home cells of a point come in rising order, so that each is listed once; a point that is assigned
/// nowhere has its home in cell 0.
pub proof fn law_home_cells_rise(assigned: Seq<u32>)
    ensures
        assigned.len() == 0 ==> home_cells(assigned) == seq![0u32],
        forall|i: int, j: int| 0 <= i < j < home_cells(assigned).len() ==> #[trigger] home_cells(assigned)[i] < #[trigger] home_cells(assigned)[j],
{
    if assigned.len() > 0 {
        lemma_ascending(assigned);
        lemma_rises(ascending(assigned));
    }
}

proof fn lemma_rises(s: Seq<u32>)
    requires
        sorted(s),
    ensures
        ({
            let r = without_repeats(s);
            &&& s.len() > 0 ==> r.len() > 0 && r.last() == s.last()
            &&& forall|i: int, j: int| 0 <= i < j < r.len() ==> #[trigger] r[i] < #[trigger] r[j]
        }),
    decreases s.len(),
{
    if s.len() > 0 {
        let t = s.drop_last();
        assert forall|i: int, j: int| 0 <= i <= j < t.len() implies #[trigger] t[i].le(#[trigger] t[j]) by {
            assert(s[i].le(s[j]));
        }
        lemma_rises(t);
        let p = without_repeats(t);
        let r = without_repeats(s);
        if t.len() > 0 {
            assert(s[t.len() - 1].le(s[t.len() as int]));
        }
        assert forall|i: int, j: int| 0 <= i < j < r.len() implies #[trigger] r[i] < #[trigger] r[j] by {
            if j < p.len() {
                assert(p[i] < p[j]);
            } else {
                assert(r[i] == p[i]);
                if i < p.len() - 1 {
                    assert(p[i] < p[p.len() - 1]);
                }
            }
        }
    }
}

// ---------------------------------------------------------------- table sums

/// A table of wider entries gives the same sums as one of narrow entries of the same values.
pub proof fn law_wide_tables_sum_alike(wide: Seq<i16>, lut: Seq<i8>, bytes: Seq<u8>, stride: nat, off: nat, n: nat)
    requires
        forall|i: int| 0 <= i < 32 * n ==> #[trigger] wide[i] == lut[i],
    ensures
        adc_i16(wide, bytes, stride, off, n) == adc_i8(lut, bytes, stride, off, n),
    decreases n,
{
    if n > 0 {
        law_wide_tables_sum_alike(wide, lut, bytes, stride, off, (n - 1) as nat);
    }
}

/// A saturating sum stays within a byte.
pub proof fn law_saturating_sums_fit(lut: Seq<i8>, bytes: Seq<u8>, lane: nat, n: nat)
    ensures
        -128 <= adc_saturating(lut, bytes, lane, n) <= 127,
{
}

// ---------------------------------------------------------------- sizes

/// At least 256 cells are weighed for the copies of a point, and at least 64 for each copy; no more than
/// the larger of the two.
pub proof fn law_spilling_weighs_many_cells(a0: nat)
    ensures
        spill_width(a0) >= 256,
        spill_width(a0) >= 64 * a0,
        spill_width(a0) == 256 || spill_width(a0) == 64 * a0,
{
}

/// A sample takes every `step`-th row from the first on, as far as there are rows.
pub proof fn law_samples_reach_the_end(n: nat, step: nat)
    requires
        step > 0,
        n > 0,
    ensures
        sampled(n, step) >= 1,
        (sampled(n, step) - 1) * step < n <= sampled(n, step) * step,
{
    let k = sampled(n, step);
    vstd::arithmetic::div_mod::lemma_fundamental_div_mod(n + step - 1, step as int);
    assert(k >= 1 && (k - 1) * step < n <= k * step) by (nonlinear_arith)
        requires
            n + step - 1 == step * k + (n + step - 1) % step as int,
            0 <= (n + step - 1) % step as int,
            (n + step - 1) % (step as int) < step,
            step > 0,
            n > 0,
    ;
}

/// One sample in two hundred may lie outside a range at either end, and one at least.
pub proof fn law_outliers_are_few(k: nat)
    ensures
        outliers(k) >= 1,
        outliers(k) == 1 || 200 * outliers(k) <= k,
        k < 200 * (outliers(k) + 1),
{
}

/// The fullest cell is one of the cells and no other is fuller; the filled cells are those that hold a
/// point.
pub proof fn law_occupancy_counts_the_cells(counts: Seq<u32>, n: nat)
    requires
        n <= counts.len(),
    ensures
        forall|i: int| 0 <= i < n ==> #[trigger] counts[i] <= fullest_cell(counts, n),
        n > 0 ==> exists|i: int| 0 <= i < n && #[trigger] counts[i] == fullest_cell(counts, n),
        filled_cells(counts, n) == counts.take(n as int).filter(|x: u32| x > 0).len(),
    decreases n,
{
    reveal(Seq::filter);
    if n > 0 {
        let m = (n - 1) as nat;
        law_occupancy_counts_the_cells(counts, m);
        assert(counts.take(n as int).drop_last() =~= counts.take(m as int));
        if m > 0 {
            let i = choose|i: int| 0 <= i < m && #[trigger] counts[i] == fullest_cell(counts, m);
            if counts[m as int] <= fullest_cell(counts, m) {
                assert(counts[i] == fullest_cell(counts, n));
            } else {
                assert(counts[m as int] == fullest_cell(counts, n));
            }
        } else {
            assert(counts[0] == fullest_cell(counts, n));
        }
    } else {
        assert(counts.take(0).len() == 0);
    }
}

} // verus!
