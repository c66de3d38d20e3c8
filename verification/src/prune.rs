//! Pruning of a neighbour graph: from each point's candidates a spread of edges is kept, none of
//! which lies behind another one as seen from the point.
use vstd::arithmetic::power2::pow2;
use vstd::prelude::*;
use vstd::slice::slice_subrange;
use crate::double::{double_of, half_even, nearest_double, round_half_even, spare};
use crate::ibin::I8Bin;
use crate::knn::holds_id;
use crate::layout::{bucket, members, Buckets};
use crate::order::{ascending, lemma_ascending, sort_ascending, sorted};
use crate::rerank::NO_POINT;
use crate::simd::{dim_limit, dot, dot_i8_avx2, l2, l2_i8, lemma_inner_bound, lemma_sqdist_bound};
use crate::stream::{lemma_without_repeats, sort_distinct, without_repeats};

verus! {

/// A factor with the precision and the range of a double.
#[derive(Clone, Copy, Debug, PartialEq, Eq, Structural)]
pub enum Factor {
    /// `m / 2^e`; `e` is negative for a factor beyond the whole numbers that a double tells apart.
    Finite { m: u64, e: i32 },
    /// Beyond every double.
    Infinite,
}

impl Factor {
    /// The mantissa of a double, and no more bits behind the point than it has.
    pub open spec fn wf(&self) -> bool {
        match *self {
            Factor::Finite { m, e } => 0x10_0000_0000_0000 <= m <= 0x20_0000_0000_0000 && -2000 <= e <= 53,
            Factor::Infinite => true,
        }
    }
}

/// The bits spell a double of at least one, an infinite one included.
pub open spec fn at_least_one(bits: u64) -> bool {
    0x3ff0_0000_0000_0000 <= bits <= 0x7ff0_0000_0000_0000
}

/// The factor that the bits of a double spell.
pub open spec fn spelled(bits: u64) -> Factor {
    if bits >= 0x7ff0_0000_0000_0000 {
        Factor::Infinite
    } else {
        Factor::Finite { m: (0x10_0000_0000_0000 + bits % 0x10_0000_0000_0000) as u64, e: (1075 - bits / 0x10_0000_0000_0000) as i32 }
    }
}

/// The factor of a double of at least one, by its bits.
pub fn factor_of(bits: u64) -> (r: Option<Factor>)
    ensures
        r == (if at_least_one(bits) { Some(spelled(bits)) } else { None }),
        r matches Some(f) ==> f.wf() && (f matches Factor::Finite { m, e } ==> m < 0x20_0000_0000_0000 && -971 <= e <= 52),
{
    if bits < 0x3ff0_0000_0000_0000 || bits > 0x7ff0_0000_0000_0000 {
        return None;
    }
    if bits == 0x7ff0_0000_0000_0000 {
        return Some(Factor::Infinite);
    }
    let exponent: u64 = bits / 0x10_0000_0000_0000;
    assert(0x3ff <= exponent < 0x7ff);
    Some(Factor::Finite { m: 0x10_0000_0000_0000 + bits % 0x10_0000_0000_0000, e: 1075 - exponent as i32 })
}

/// `m / 2^e` reaches `2^1024`, where `m` has fifty-three bits or is rounded up from there: no finite
/// double does.
pub open spec fn overflows(m: u64, e: int) -> bool {
    e < -971 || (e == -971 && m == 0x20_0000_0000_0000)
}

/// The square of a factor, rounded to a double.
pub open spec fn squared(f: Factor) -> Factor {
    match f {
        Factor::Finite { m, e } => {
            let n = (m * m) as nat;
            let top = half_even(n, pow2(spare(n))) as u64;
            let low = 2 * e - spare(n);
            if overflows(top, low) {
                Factor::Infinite
            } else {
                Factor::Finite { m: top, e: low as i32 }
            }
        },
        Factor::Infinite => f,
    }
}

pub proof fn lemma_spare(n: nat, s: nat)
    requires
        0x10_0000_0000_0000 * pow2(s) <= n < 0x20_0000_0000_0000 * pow2(s),
    ensures
        spare(n) == s,
    decreases s,
{
    vstd::arithmetic::power2::lemma2_to64();
    if s > 0 {
        vstd::arithmetic::power2::lemma_pow2_unfold(s);
        vstd::arithmetic::power2::lemma_pow2_pos((s - 1) as nat);
        let p = pow2((s - 1) as nat);
        assert(n >= 0x20_0000_0000_0000) by (nonlinear_arith)
            requires
                0x10_0000_0000_0000 * (2 * p) <= n,
                p >= 1,
        ;
        assert(0x10_0000_0000_0000 * p <= n / 2 < 0x20_0000_0000_0000 * p) by (nonlinear_arith)
            requires
                0x10_0000_0000_0000 * (2 * p) <= n,
                n < 0x20_0000_0000_0000 * (2 * p),
        ;
        lemma_spare(n / 2, (s - 1) as nat);
    }
}

/// The square of a factor.
pub fn square(f: Factor) -> (r: Factor)
    requires
        f.wf(),
        f matches Factor::Finite { m, e } ==> m < 0x20_0000_0000_0000 && -971 <= e <= 52,
    ensures
        r == squared(f),
        r.wf(),
{
    match f {
        Factor::Infinite => f,
        Factor::Finite { m, e } => {
            proof {
                assert(0x100_0000_0000_0000_0000_0000_0000 <= m * m < 0x400_0000_0000_0000_0000_0000_0000) by (nonlinear_arith)
                    requires
                        0x10_0000_0000_0000 <= m < 0x20_0000_0000_0000,
                ;
                vstd::arithmetic::power2::lemma2_to64_rest();
            }
            let n: u128 = m as u128 * m as u128;
            let s: i32 = if n < 0x200_0000_0000_0000_0000_0000_0000 { 52 } else { 53 };
            let unit: u128 = if n < 0x200_0000_0000_0000_0000_0000_0000 { 0x10_0000_0000_0000 } else { 0x20_0000_0000_0000 };
            proof {
                assert(unit == pow2(s as nat));
                lemma_spare(n as nat, s as nat);
            }
            let top: u128 = round_half_even(n, unit);
            proof {
                assert(0x10_0000_0000_0000 <= top <= 0x20_0000_0000_0000) by (nonlinear_arith)
                    requires
                        top == half_even(n as nat, unit as nat),
                        unit > 0,
                        0x10_0000_0000_0000 * unit <= n < 0x20_0000_0000_0000 * unit,
                {
                    let q = n as int / unit as int;
                    assert(0x10_0000_0000_0000 <= q < 0x20_0000_0000_0000);
                }
            }
            let low: i32 = 2 * e - s;
            if low < -971 || (low == -971 && top == 0x20_0000_0000_0000) {
                Factor::Infinite
            } else {
                Factor::Finite { m: top as u64, e: low }
            }
        },
    }
}

/// The factor that distances are stretched by: under the Euclidean metric the squared one, since the
/// distances are squared too.
pub fn stretch(bits: u64, l2_metric: bool) -> (r: Option<Factor>)
    ensures
        r == (if !at_least_one(bits) {
            None
        } else if l2_metric {
            Some(squared(spelled(bits)))
        } else {
            Some(spelled(bits))
        }),
        r matches Some(f) ==> f.wf(),
{
    match factor_of(bits) {
        None => None,
        Some(f) => if l2_metric {
            Some(square(f))
        } else {
            Some(f)
        },
    }
}

/// `f` times a whole number, rounded to a double, is at most another whole number. An infinite factor
/// times zero is no number, and at most none.
pub open spec fn times_at_most(f: Factor, d: int, bound: int) -> bool {
    match f {
        Factor::Infinite => d < 0,
        Factor::Finite { m, e } => {
            let size = double_of((m * (if d < 0 { -d } else { d })) as nat);
            let signed = if d < 0 { -size } else { size as int };
            if e >= 0 {
                signed <= bound * pow2(e as nat)
            } else {
                signed * pow2((-e) as nat) <= bound
            }
        },
    }
}

pub proof fn lemma_spare_low(n: nat)
    requires
        n >= 0x10_0000_0000_0000,
    ensures
        0x10_0000_0000_0000 * pow2(spare(n)) <= n,
    decreases n,
{
    vstd::arithmetic::power2::lemma2_to64();
    if n >= 0x20_0000_0000_0000 {
        lemma_spare_low(n / 2);
        vstd::arithmetic::power2::lemma_pow2_unfold(spare(n));
    }
}

/// A double is no less than the largest power of two below it.
proof fn lemma_double_low(n: nat)
    requires
        n >= 0x10_0000_0000_0000,
    ensures
        double_of(n) >= 0x10_0000_0000_0000,
{
    let u = pow2(spare(n));
    lemma_spare_low(n);
    vstd::arithmetic::power2::lemma_pow2_pos(spare(n));
    assert(n / u >= 0x10_0000_0000_0000) by (nonlinear_arith)
        requires
            0x10_0000_0000_0000 * u <= n,
            u > 0,
    ;
    let h = half_even(n, u);
    assert(h * u >= 0x10_0000_0000_0000) by (nonlinear_arith)
        requires
            h >= 0x10_0000_0000_0000,
            u >= 1,
    ;
}

/// A factor beyond `2^52` decides by the sign alone.
proof fn lemma_large_factor(m: u64, e: i32, d: int, bound: int)
    requires
        0x10_0000_0000_0000 <= m,
        e < 0,
        -0x1_0000_0000 <= bound <= 0x1_0000_0000,
    ensures
        times_at_most(Factor::Finite { m, e }, d, bound) == (d < 0 || (d == 0 && bound >= 0)),
{
    let size = if d < 0 {
        -d
    } else {
        d
    };
    let n = (m * size) as nat;
    let g = pow2((-e) as nat) as int;
    vstd::arithmetic::power2::lemma_pow2_pos((-e) as nat);
    let p = double_of(n) as int;
    if d == 0 {
        assert(n == 0) by (nonlinear_arith)
            requires
                n == m * size,
                size == 0,
        ;
        vstd::arithmetic::power2::lemma2_to64();
        assert(p == 0);
        assert(p * g == 0) by (nonlinear_arith)
            requires
                p == 0,
        ;
    } else {
        assert(n >= 0x10_0000_0000_0000) by (nonlinear_arith)
            requires
                n == m * size,
                m >= 0x10_0000_0000_0000,
                size >= 1,
        ;
        lemma_double_low(n);
        assert(p * g >= 0x10_0000_0000_0000 && (-p) * g <= -0x10_0000_0000_0000) by (nonlinear_arith)
            requires
                p >= 0x10_0000_0000_0000,
                g >= 1,
        ;
    }
}

/// True where `f` times `d`, rounded to a double, is at most `bound`.
fn scaled_at_most(f: Factor, d: i64, bound: i64) -> (r: bool)
    requires
        f.wf(),
        -0x1_0000_0000 <= d <= 0x1_0000_0000,
        -0x1_0000_0000 <= bound <= 0x1_0000_0000,
    ensures
        r == times_at_most(f, d as int, bound as int),
{
    match f {
        Factor::Infinite => d < 0,
        Factor::Finite { m, e } => {
            if e < 0 {
                proof {
                    lemma_large_factor(m, e, d as int, bound as int);
                }
                d < 0 || (d == 0 && bound >= 0)
            } else {
                finite_at_most(m, e as u32, d, bound)
            }
        },
    }
}

/// True where `m / 2^e` times `d`, rounded to a double, is at most `bound`.
fn finite_at_most(m: u64, e: u32, d: i64, bound: i64) -> (r: bool)
    requires
        0x10_0000_0000_0000 <= m <= 0x20_0000_0000_0000,
        e <= 53,
        -0x1_0000_0000 <= d <= 0x1_0000_0000,
        -0x1_0000_0000 <= bound <= 0x1_0000_0000,
    ensures
        r == times_at_most(Factor::Finite { m, e: e as i32 }, d as int, bound as int),
{
    let size: u64 = if d < 0 { (-d) as u64 } else { d as u64 };
    assert(m * size <= 0x20_0000_0000_0000 * 0x1_0000_0000) by (nonlinear_arith)
        requires
            m <= 0x20_0000_0000_0000,
            size <= 0x1_0000_0000,
    ;
    let product: u128 = nearest_double(m as u128 * size as u128);
    let mut unit: i128 = 1;
    let mut i: u32 = 0;
    proof {
        vstd::arithmetic::power2::lemma2_to64();
    }
    while i < e
        invariant
            i <= e,
            e <= 53,
            unit == pow2(i as nat),
            unit <= 0x20_0000_0000_0000,
        decreases e - i,
    {
        proof {
            vstd::arithmetic::power2::lemma_pow2_unfold((i + 1) as nat);
            vstd::arithmetic::power2::lemma2_to64_rest();
            if i + 1 < 53 {
                vstd::arithmetic::power2::lemma_pow2_strictly_increases((i + 1) as nat, 53);
            }
        }
        unit = unit * 2;
        i = i + 1;
    }
    let signed: i128 = if d < 0 { -(product as i128) } else { product as i128 };
    assert(-0x1_0000_0000 * 0x20_0000_0000_0000 <= bound * unit <= 0x1_0000_0000 * 0x20_0000_0000_0000) by (nonlinear_arith)
        requires
            -0x1_0000_0000 <= bound <= 0x1_0000_0000,
            0 <= unit <= 0x20_0000_0000_0000,
    ;
    signed <= bound as i128 * unit
}

/// How far two points are from each other: their squared distance, or their inner product negated.
pub open spec fn apart(l2_metric: bool, x: Seq<i8>, y: Seq<i8>) -> int {
    if l2_metric {
        l2(x, y)
    } else {
        -dot(x, y)
    }
}

fn distance(l2_metric: bool, x: &[i8], y: &[i8]) -> (r: i64)
    requires
        x@.len() == y@.len(),
        x@.len() <= dim_limit(l2_metric),
    ensures
        r == apart(l2_metric, x@, y@),
        -0x1_0000_0000 <= r <= 0x1_0000_0000,
{
    proof {
        lemma_sqdist_bound(x@, y@, x@.len());
        lemma_inner_bound(x@, y@, x@.len());
    }
    if l2_metric {
        l2_i8(x, y) as i64
    } else {
        -(dot_i8_avx2(x, y) as i64)
    }
}

/// The entries of a list that name another point than `v`.
pub open spec fn other_points(ids: Seq<u32>, v: u32) -> Seq<u32>
    decreases ids.len(),
{
    if ids.len() == 0 {
        ids
    } else {
        let before = other_points(ids.drop_last(), v);
        if ids.last() != NO_POINT && ids.last() != v {
            before.push(ids.last())
        } else {
            before
        }
    }
}

/// The distances of some points from point `v`.
pub open spec fn measured(data: I8Bin<'_>, l2_metric: bool, v: int, ids: Seq<u32>) -> Seq<(i64, u32)> {
    Seq::new(ids.len(), |i: int| (apart(l2_metric, data.spec_row(v), data.spec_row(ids[i] as int)) as i64, ids[i]))
}

/// The candidates of point `v`: the other points among the given ones, each once, nearest first.
pub open spec fn candidates(data: I8Bin<'_>, l2_metric: bool, v: int, ids: Seq<u32>) -> Seq<(i64, u32)> {
    ascending(measured(data, l2_metric, v, without_repeats(ascending(other_points(ids, v as u32)))))
}

/// A candidate lies behind point `p`: the stretched distance between the two is no more than the
/// candidate's own.
pub open spec fn behind(data: I8Bin<'_>, l2_metric: bool, f: Factor, p: u32, c: (i64, u32)) -> bool {
    times_at_most(f, apart(l2_metric, data.spec_row(p as int), data.spec_row(c.1 as int)), c.0 as int)
}

/// A candidate lies behind one of the chosen points.
pub open spec fn occluded(data: I8Bin<'_>, l2_metric: bool, f: Factor, chosen: Seq<u32>, c: (i64, u32)) -> bool {
    exists|i: int| 0 <= i < chosen.len() && behind(data, l2_metric, f, #[trigger] chosen[i], c)
}

/// The chosen points among the first `n` candidates: in their order, each that lies behind none of
/// those before it, up to `r` of them.
pub open spec fn spread(data: I8Bin<'_>, l2_metric: bool, f: Factor, cand: Seq<(i64, u32)>, r: nat, n: nat) -> Seq<u32>
    decreases n,
{
    if n == 0 {
        Seq::empty()
    } else {
        let before = spread(data, l2_metric, f, cand, r, (n - 1) as nat);
        if before.len() >= r || occluded(data, l2_metric, f, before, cand[n - 1]) {
            before
        } else {
            before.push(cand[n - 1].1)
        }
    }
}

/// The chosen points, filled up to `r` with the nearest of the first `n` candidates that were not
/// chosen.
pub open spec fn filled(chosen: Seq<u32>, cand: Seq<(i64, u32)>, r: nat, n: nat) -> Seq<u32>
    decreases n,
{
    if n == 0 {
        chosen
    } else {
        let before = filled(chosen, cand, r, (n - 1) as nat);
        if before.len() < r && !before.contains(cand[n - 1].1) {
            before.push(cand[n - 1].1)
        } else {
            before
        }
    }
}

/// A list of exactly `r` entries: repeated from its last one, or of point `v` alone where it is empty.
pub open spec fn repeated(s: Seq<u32>, v: u32, r: nat) -> Seq<u32> {
    Seq::new(r, |i: int| if i < s.len() { s[i] } else if s.len() == 0 { v } else { s.last() })
}

/// The pruned edges of point `v`.
pub open spec fn pruned(data: I8Bin<'_>, l2_metric: bool, f: Factor, v: int, ids: Seq<u32>, r: nat) -> Seq<u32> {
    let cand = candidates(data, l2_metric, v, ids);
    repeated(filled(spread(data, l2_metric, f, cand, r, cand.len()), cand, r, cand.len()), v as u32, r)
}

/// Every entry is empty or names a point.
pub open spec fn named(ids: Seq<u32>, n: nat) -> bool {
    forall|i: int| 0 <= i < ids.len() ==> #[trigger] ids[i] == NO_POINT || ids[i] < n
}

proof fn lemma_other_points(ids: Seq<u32>, v: u32, n: nat)
    requires
        named(ids, n),
    ensures
        forall|i: int| 0 <= i < other_points(ids, v).len() ==> (#[trigger] other_points(ids, v)[i]) < n && other_points(ids, v)[i] != v && ids.contains(other_points(ids, v)[i]),
    decreases ids.len(),
{
    if ids.len() > 0 {
        let head = ids.drop_last();
        assert(named(head, n)) by {
            assert forall|i: int| 0 <= i < head.len() implies #[trigger] head[i] == NO_POINT || head[i] < n by {
                assert(ids[i] == head[i]);
            }
        }
        lemma_other_points(head, v, n);
        let before = other_points(head, v);
        let after = other_points(ids, v);
        assert forall|i: int| 0 <= i < after.len() implies (#[trigger] after[i]) < n && after[i] != v && ids.contains(after[i]) by {
            if i < before.len() {
                assert(after[i] == before[i]);
                assert(head.contains(before[i]));
                let j = choose|j: int| 0 <= j < head.len() && head[j] == before[i];
                assert(ids[j] == after[i]);
            } else {
                assert(ids[ids.len() - 1] == after[i]);
            }
        }
    }
}

/// The candidates are other points among the given ones, none twice, nearest first.
pub proof fn lemma_candidates(data: I8Bin<'_>, l2_metric: bool, v: int, ids: Seq<u32>)
    requires
        named(ids, data.nb as nat),
    ensures
        sorted(candidates(data, l2_metric, v, ids)),
        forall|i: int| 0 <= i < candidates(data, l2_metric, v, ids).len() ==> {
            let c = #[trigger] candidates(data, l2_metric, v, ids)[i];
            c.1 < data.nb && c.1 != v as u32 && ids.contains(c.1) && c.0 == apart(l2_metric, data.spec_row(v), data.spec_row(c.1 as int)) as i64
        },
        forall|i: int, j: int| 0 <= i < j < candidates(data, l2_metric, v, ids).len() ==> (#[trigger] candidates(data, l2_metric, v, ids)[i]).1 != (#[trigger] candidates(data, l2_metric, v, ids)[j]).1,
{
    broadcast use vstd::seq_lib::group_to_multiset_ensures;

    let others = other_points(ids, v as u32);
    lemma_other_points(ids, v as u32, data.nb as nat);
    let up = ascending(others);
    lemma_ascending(others);
    lemma_without_repeats(up);
    let once = without_repeats(up);
    let dist = measured(data, l2_metric, v, once);
    lemma_ascending(dist);
    let cand = candidates(data, l2_metric, v, ids);
    assert(cand.to_multiset() =~= dist.to_multiset());
    assert forall|i: int| 0 <= i < cand.len() implies {
        let c = #[trigger] cand[i];
        c.1 < data.nb && c.1 != v as u32 && ids.contains(c.1) && c.0 == apart(l2_metric, data.spec_row(v), data.spec_row(c.1 as int)) as i64
    } by {
        assert(cand.contains(cand[i]));
        assert(cand.to_multiset().count(cand[i]) > 0);
        assert(dist.to_multiset().count(cand[i]) > 0);
        assert(dist.contains(cand[i]));
        let j = choose|j: int| 0 <= j < dist.len() && dist[j] == cand[i];
        assert(once.contains(once[j]));
        assert(up.contains(once[j]));
        assert(others.to_multiset().count(once[j]) > 0) by {
            assert(up.to_multiset().count(once[j]) > 0);
        }
        assert(others.contains(once[j]));
        let x = choose|x: int| 0 <= x < others.len() && others[x] == once[j];
        assert(others[x] < data.nb);
    }
    assert(cand.no_duplicates()) by {
        assert forall|i: int, j: int| 0 <= i < dist.len() && 0 <= j < dist.len() && i != j implies dist[i] != dist[j] by {
            assert(once[i] != once[j]);
        }
        lemma_no_duplicates(dist, cand);
    }
    assert forall|i: int, j: int| 0 <= i < j < cand.len() implies (#[trigger] cand[i]).1 != (#[trigger] cand[j]).1 by {
        if cand[i].1 == cand[j].1 {
            assert(cand[i] == cand[j]);
        }
    }
}

proof fn lemma_no_duplicates(a: Seq<(i64, u32)>, b: Seq<(i64, u32)>)
    requires
        a.no_duplicates(),
        a.to_multiset() == b.to_multiset(),
    ensures
        b.no_duplicates(),
{
    broadcast use vstd::seq_lib::group_to_multiset_ensures;

    a.lemma_multiset_has_no_duplicates();
    assert forall|x: (i64, u32)| b.to_multiset().contains(x) implies b.to_multiset().count(x) == 1 by {
        assert(a.to_multiset().contains(x));
    }
    b.lemma_multiset_has_no_duplicates_conv();
}

fn keep_others(ids: &[u32], v: u32) -> (out: Vec<u32>)
    ensures
        out@ == other_points(ids@, v),
{
    let n: usize = ids.len();
    let mut out: Vec<u32> = Vec::new();
    let mut i: usize = 0;
    assert(ids@.take(0) =~= Seq::<u32>::empty());
    while i < n
        invariant
            i <= n,
            n == ids@.len(),
            out@ == other_points(ids@.take(i as int), v),
        decreases n - i,
    {
        assert(ids@.take(i + 1).drop_last() =~= ids@.take(i as int));
        if ids[i] != NO_POINT && ids[i] != v {
            out.push(ids[i]);
        }
        i = i + 1;
    }
    assert(ids@.take(n as int) =~= ids@);
    out
}

/// The candidates of point `v`, nearest first.
fn gather(ds: &I8Bin<'_>, l2_metric: bool, v: usize, ids: &[u32]) -> (cand: Vec<(i64, u32)>)
    requires
        ds.wf(),
        ds.d <= dim_limit(l2_metric),
        v < ds.nb,
        ds.nb <= u32::MAX,
        named(ids@, ds.nb as nat),
    ensures
        cand@ == candidates(*ds, l2_metric, v as int, ids@),
{
    broadcast use vstd::seq_lib::group_to_multiset_ensures;

    let mut once: Vec<u32> = keep_others(ids, v as u32);
    let ghost others = once@;
    proof {
        lemma_other_points(ids@, v as u32, ds.nb as nat);
        lemma_ascending(others);
        lemma_without_repeats(ascending(others));
    }
    sort_distinct(&mut once);
    assert forall|i: int| 0 <= i < once@.len() implies #[trigger] once@[i] < ds.nb by {
        assert(once@.contains(once@[i]));
        assert(ascending(others).contains(once@[i]));
        assert(ascending(others).to_multiset().count(once@[i]) > 0);
        assert(others.to_multiset().count(once@[i]) > 0);
        assert(others.contains(once@[i]));
        let x = choose|x: int| 0 <= x < others.len() && others[x] == once@[i];
        assert(others[x] < ds.nb);
    }
    let ghost want = measured(*ds, l2_metric, v as int, once@);
    let n: usize = once.len();
    let mut cand: Vec<(i64, u32)> = Vec::new();
    let mut i: usize = 0;
    while i < n
        invariant
            i <= n,
            n == once@.len(),
            ds.wf(),
            ds.d <= dim_limit(l2_metric),
            v < ds.nb,
            forall|j: int| 0 <= j < n ==> #[trigger] once@[j] < ds.nb,
            want == measured(*ds, l2_metric, v as int, once@),
            cand@.len() == i,
            forall|j: int| 0 <= j < i ==> #[trigger] cand@[j] == want[j],
        decreases n - i,
    {
        let id: u32 = once[i];
        let far: i64 = distance(l2_metric, ds.row(v), ds.row(id as usize));
        cand.push((far, id));
        i = i + 1;
    }
    assert(cand@ =~= want);
    sort_ascending(&mut cand);
    cand
}

pub proof fn lemma_apart_fits(data: I8Bin<'_>, l2_metric: bool, v: int, w: int)
    requires
        data.wf(),
        data.d <= dim_limit(l2_metric),
        0 <= v < data.nb,
        0 <= w < data.nb,
    ensures
        -0x1_0000_0000 <= apart(l2_metric, data.spec_row(v), data.spec_row(w)) <= 0x1_0000_0000,
{
    let x = data.spec_row(v);
    let y = data.spec_row(w);
    crate::simd::lemma_row_in_range(v, data.d as int, data.nb as int, data.data@.len() as int);
    lemma_sqdist_bound(x, y, x.len());
    lemma_inner_bound(x, y, x.len());
}

/// True where the candidate lies behind one of the chosen points.
fn lies_behind(ds: &I8Bin<'_>, l2_metric: bool, f: Factor, chosen: &Vec<u32>, c: (i64, u32)) -> (r: bool)
    requires
        ds.wf(),
        ds.d <= dim_limit(l2_metric),
        f.wf(),
        c.1 < ds.nb,
        -0x1_0000_0000 <= c.0 <= 0x1_0000_0000,
        forall|i: int| 0 <= i < chosen@.len() ==> #[trigger] chosen@[i] < ds.nb,
    ensures
        r == occluded(*ds, l2_metric, f, chosen@, c),
{
    let n: usize = chosen.len();
    let mut i: usize = 0;
    while i < n
        invariant
            i <= n,
            n == chosen@.len(),
            ds.wf(),
            ds.d <= dim_limit(l2_metric),
            f.wf(),
            c.1 < ds.nb,
            -0x1_0000_0000 <= c.0 <= 0x1_0000_0000,
            forall|j: int| 0 <= j < chosen@.len() ==> #[trigger] chosen@[j] < ds.nb,
            forall|j: int| 0 <= j < i ==> !behind(*ds, l2_metric, f, #[trigger] chosen@[j], c),
        decreases n - i,
    {
        let p: u32 = chosen[i];
        let far: i64 = distance(l2_metric, ds.row(p as usize), ds.row(c.1 as usize));
        if scaled_at_most(f, far, c.0) {
            assert(behind(*ds, l2_metric, f, chosen@[i as int], c));
            return true;
        }
        i = i + 1;
    }
    false
}

/// The pruned edges of point `v`: from the nearest candidate to the farthest, those that lie behind no
/// chosen one; then the nearest of the others; then the last one again, up to `r` edges.
pub fn prune_row(ds: &I8Bin<'_>, l2_metric: bool, f: Factor, v: usize, ids: &[u32], r: usize) -> (out: Vec<u32>)
    requires
        ds.wf(),
        ds.d <= dim_limit(l2_metric),
        v < ds.nb,
        ds.nb <= u32::MAX,
        f.wf(),
        named(ids@, ds.nb as nat),
    ensures
        out@ == pruned(*ds, l2_metric, f, v as int, ids@, r as nat),
        out@.len() == r,
        forall|i: int| 0 <= i < out@.len() ==> #[trigger] out@[i] < ds.nb,
{
    let cand: Vec<(i64, u32)> = gather(ds, l2_metric, v, ids);
    proof {
        lemma_candidates(*ds, l2_metric, v as int, ids@);
        assert forall|i: int| 0 <= i < cand@.len() implies (#[trigger] cand@[i]).1 < ds.nb && -0x1_0000_0000 <= cand@[i].0 <= 0x1_0000_0000 by {
            lemma_apart_fits(*ds, l2_metric, v as int, cand@[i].1 as int);
        }
    }
    let n: usize = cand.len();
    let mut out: Vec<u32> = Vec::new();
    let mut i: usize = 0;
    while i < n
        invariant
            i <= n,
            n == cand@.len(),
            ds.wf(),
            ds.d <= dim_limit(l2_metric),
            f.wf(),
            forall|j: int| 0 <= j < n ==> (#[trigger] cand@[j]).1 < ds.nb && -0x1_0000_0000 <= cand@[j].0 <= 0x1_0000_0000,
            out@ == spread(*ds, l2_metric, f, cand@, r as nat, i as nat),
            forall|j: int| 0 <= j < out@.len() ==> #[trigger] out@[j] < ds.nb,
            out@.len() <= r,
        decreases n - i,
    {
        let c: (i64, u32) = cand[i];
        assert(cand@[i as int].1 < ds.nb);
        if out.len() < r && !lies_behind(ds, l2_metric, f, &out, c) {
            out.push(c.1);
        }
        i = i + 1;
    }
    let ghost chosen = out@;
    let mut i: usize = 0;
    while i < n
        invariant
            i <= n,
            n == cand@.len(),
            forall|j: int| 0 <= j < n ==> (#[trigger] cand@[j]).1 < ds.nb && -0x1_0000_0000 <= cand@[j].0 <= 0x1_0000_0000,
            out@ == filled(chosen, cand@, r as nat, i as nat),
            forall|j: int| 0 <= j < out@.len() ==> #[trigger] out@[j] < ds.nb,
            out@.len() <= r,
        decreases n - i,
    {
        let c: (i64, u32) = cand[i];
        assert(cand@[i as int].1 < ds.nb);
        if out.len() < r && !holds_id(&out, c.1) {
            out.push(c.1);
        }
        i = i + 1;
    }
    let ghost all = out@;
    let m: usize = out.len();
    let pad: u32 = if m == 0 { v as u32 } else { out[m - 1] };
    let ghost want = repeated(all, v as u32, r as nat);
    let mut i: usize = m;
    assert(out@ =~= want.take(m as int));
    while i < r
        invariant
            m <= i <= r,
            m == all.len(),
            pad == (if m == 0 { v as u32 } else { all.last() }),
            pad < ds.nb,
            want == repeated(all, v as u32, r as nat),
            out@ == want.take(i as int),
            forall|j: int| 0 <= j < out@.len() ==> #[trigger] out@[j] < ds.nb,
        decreases r - i,
    {
        out.push(pad);
        assert(out@ =~= want.take(i + 1));
        i = i + 1;
    }
    assert(want.take(r as int) =~= want);
    out
}

/// A row of a flat list of rows of width `w`.
pub open spec fn row_in(flat: Seq<u32>, w: nat, v: int) -> Seq<u32> {
    flat.subrange(v * w, v * w + w)
}

/// The first pass: the edges of every point, pruned from its row of `kin` candidates.
pub fn prune_graph(ds: &I8Bin<'_>, l2_metric: bool, f: Factor, graph: &Vec<u32>, kin: usize, r: usize) -> (out: Vec<u32>)
    requires
        ds.wf(),
        ds.d <= dim_limit(l2_metric),
        ds.nb <= u32::MAX,
        f.wf(),
        graph@.len() == ds.nb * kin,
        named(graph@, ds.nb as nat),
    ensures
        out@.len() == ds.nb * r,
        forall|v: int| 0 <= v < ds.nb ==> #[trigger] row_in(out@, r as nat, v) == pruned(*ds, l2_metric, f, v, row_in(graph@, kin as nat, v), r as nat),
        forall|i: int| 0 <= i < out@.len() ==> #[trigger] out@[i] < ds.nb,
{
    let n: usize = ds.nb;
    let total: usize = graph.len();
    let mut out: Vec<u32> = Vec::new();
    let mut v: usize = 0;
    assert(0 * r == 0) by (nonlinear_arith);
    while v < n
        invariant
            v <= n,
            n == ds.nb,
            total == graph@.len(),
            ds.wf(),
            ds.d <= dim_limit(l2_metric),
            ds.nb <= u32::MAX,
            f.wf(),
            total == n * kin,
            named(graph@, n as nat),
            out@.len() == v * r,
            forall|x: int| 0 <= x < v ==> #[trigger] row_in(out@, r as nat, x) == pruned(*ds, l2_metric, f, x, row_in(graph@, kin as nat, x), r as nat),
            forall|i: int| 0 <= i < out@.len() ==> #[trigger] out@[i] < ds.nb,
        decreases n - v,
    {
        proof {
            crate::simd::lemma_row_in_range(v as int, kin as int, n as int, total as int);
        }
        let part: &[u32] = slice_subrange(graph.as_slice(), v * kin, v * kin + kin);
        assert(part@ =~= row_in(graph@, kin as nat, v as int));
        let row: Vec<u32> = prune_row(ds, l2_metric, f, v, part, r);
        push_ids(&mut out, &row, v, Ghost(n as nat));
        v = v + 1;
    }
    out
}

/// Append a row to a flat list of `v` rows.
fn push_ids(out: &mut Vec<u32>, row: &Vec<u32>, v: usize, n: Ghost<nat>)
    requires
        old(out)@.len() == v * row@.len(),
        forall|i: int| 0 <= i < old(out)@.len() ==> #[trigger] old(out)@[i] < n@,
        forall|i: int| 0 <= i < row@.len() ==> #[trigger] row@[i] < n@,
    ensures
        final(out)@.len() == (v + 1) * row@.len(),
        row_in(final(out)@, row@.len(), v as int) == row@,
        forall|x: int| 0 <= x < v ==> #[trigger] row_in(final(out)@, row@.len(), x) == row_in(old(out)@, row@.len(), x),
        forall|i: int| 0 <= i < final(out)@.len() ==> #[trigger] final(out)@[i] < n@,
{
    let ghost before = out@;
    let ghost nn = n@;
    let r: usize = row.len();
    let mut j: usize = 0;
    while j < r
        invariant
            j <= r,
            r == row@.len(),
            out@ =~= before + row@.take(j as int),
            forall|i: int| 0 <= i < row@.len() ==> #[trigger] row@[i] < nn,
            forall|i: int| 0 <= i < out@.len() ==> #[trigger] out@[i] < nn,
        decreases r - j,
    {
        out.push(row[j]);
        j = j + 1;
    }
    proof {
        assert((v + 1) * r == v * r + r) by (nonlinear_arith);
        assert(row_in(out@, r as nat, v as int) =~= row@);
        assert forall|x: int| 0 <= x < v implies #[trigger] row_in(out@, r as nat, x) == row_in(before, r as nat, x) by {
            crate::simd::lemma_row_in_range(x, r as int, v as int, before.len() as int);
            assert(row_in(out@, r as nat, x) =~= row_in(before, r as nat, x));
        }
    }
}

/// The points with an edge to point `v`, at most `cap` of them, behind the edges of `v` itself.
pub open spec fn two_way(out: Seq<u32>, r: nat, v: int, cap: nat) -> Seq<u32> {
    let into = members(out, r, v, out.len());
    row_in(out, r, v) + (if into.len() > cap { into.take(cap as int) } else { into })
}

/// The second pass: the edges of every point, pruned again from its own edges and those that lead to
/// it, at most `cap` of the latter.
pub fn prune_two_way(ds: &I8Bin<'_>, l2_metric: bool, f: Factor, first: &Vec<u32>, r: usize, cap: usize) -> (out: Vec<u32>)
    requires
        ds.wf(),
        ds.d <= dim_limit(l2_metric),
        ds.nb < usize::MAX,
        f.wf(),
        r >= 1,
        first@.len() == ds.nb * r,
        first@.len() <= u32::MAX,
        forall|i: int| 0 <= i < first@.len() ==> #[trigger] first@[i] < ds.nb,
    ensures
        out@.len() == ds.nb * r,
        forall|v: int| 0 <= v < ds.nb ==> #[trigger] row_in(out@, r as nat, v) == pruned(*ds, l2_metric, f, v, two_way(first@, r as nat, v, cap as nat), r as nat),
        forall|i: int| 0 <= i < out@.len() ==> #[trigger] out@[i] < ds.nb,
{
    let n: usize = ds.nb;
    let total: usize = first.len();
    proof {
        assert(n <= u32::MAX) by (nonlinear_arith)
            requires
                n * r <= u32::MAX,
                r >= 1,
        ;
    }
    let into: Buckets = bucket(first, r, n);
    proof {
        crate::ivf::lemma_buckets_hold_points(into, first@, r as nat, n as nat, n as nat);
    }
    let mut out: Vec<u32> = Vec::new();
    let mut v: usize = 0;
    assert(0 * r == 0) by (nonlinear_arith);
    while v < n
        invariant
            v <= n,
            n == ds.nb,
            n <= u32::MAX,
            total == first@.len(),
            ds.wf(),
            ds.d <= dim_limit(l2_metric),
            f.wf(),
            r >= 1,
            total == n * r,
            forall|i: int| 0 <= i < first@.len() ==> #[trigger] first@[i] < n,
            into.group(first@, r as nat, n as nat),
            forall|x: int, y: int| 0 <= x <= y <= n ==> #[trigger] into.start@[x] <= #[trigger] into.start@[y],
            into.start@[n as int] == into.ids@.len(),
            forall|t: int| 0 <= t < into.ids@.len() ==> #[trigger] into.ids@[t] < n,
            out@.len() == v * r,
            forall|x: int| 0 <= x < v ==> #[trigger] row_in(out@, r as nat, x) == pruned(*ds, l2_metric, f, x, two_way(first@, r as nat, x, cap as nat), r as nat),
            forall|i: int| 0 <= i < out@.len() ==> #[trigger] out@[i] < ds.nb,
        decreases n - v,
    {
        proof {
            crate::simd::lemma_row_in_range(v as int, r as int, n as int, total as int);
            assert(into.start@[v as int] <= into.start@[v + 1] <= into.start@[n as int]);
            assert(into.of(v as int) == members(first@, r as nat, v as int, first@.len()));
        }
        let mut ids: Vec<u32> = vstd::slice::slice_to_vec(slice_subrange(first.as_slice(), v * r, v * r + r));
        assert(ids@ =~= row_in(first@, r as nat, v as int));
        let ghost own = ids@;
        let s: usize = into.start[v] as usize;
        let full: usize = into.start[v + 1] as usize;
        let e: usize = if full - s > cap { s + cap } else { full };
        let ghost back = into.ids@.subrange(s as int, e as int);
        let mut j: usize = s;
        while j < e
            invariant
                s <= j <= e,
                e <= into.ids@.len(),
                back == into.ids@.subrange(s as int, e as int),
                ids@ =~= own + back.take(j - s),
            decreases e - j,
        {
            ids.push(into.ids[j]);
            j = j + 1;
        }
        proof {
            assert(back.take(e - s) =~= back);
            assert(ids@ =~= two_way(first@, r as nat, v as int, cap as nat));
            assert forall|i: int| 0 <= i < ids@.len() implies #[trigger] ids@[i] == NO_POINT || ids@[i] < n by {
                if i < own.len() {
                    assert(ids@[i] == first@[v * r + i]);
                } else {
                    assert(ids@[i] == into.ids@[s + (i - own.len())]);
                }
            }
        }
        let row: Vec<u32> = prune_row(ds, l2_metric, f, v, ids.as_slice(), r);
        push_ids(&mut out, &row, v, Ghost(n as nat));
        v = v + 1;
    }
    out
}

proof fn lemma_spread(data: I8Bin<'_>, l2_metric: bool, f: Factor, cand: Seq<(i64, u32)>, r: nat, n: nat)
    requires
        n <= cand.len(),
    ensures
        spread(data, l2_metric, f, cand, r, n).len() <= r,
        forall|j: int| 0 <= j < spread(data, l2_metric, f, cand, r, n).len() ==> exists|i: int|
            0 <= i < n && (#[trigger] cand[i]).1 == #[trigger] spread(data, l2_metric, f, cand, r, n)[j] && !occluded(data, l2_metric, f, spread(data, l2_metric, f, cand, r, n).take(j), cand[i]),
    decreases n,
{
    if n > 0 {
        lemma_spread(data, l2_metric, f, cand, r, (n - 1) as nat);
        let before = spread(data, l2_metric, f, cand, r, (n - 1) as nat);
        let after = spread(data, l2_metric, f, cand, r, n);
        assert forall|j: int| 0 <= j < after.len() implies exists|i: int|
            0 <= i < n && (#[trigger] cand[i]).1 == #[trigger] after[j] && !occluded(data, l2_metric, f, after.take(j), cand[i]) by {
            if j < before.len() {
                let i = choose|i: int| 0 <= i < n - 1 && (#[trigger] cand[i]).1 == before[j] && !occluded(data, l2_metric, f, before.take(j), cand[i]);
                assert(after.take(j) =~= before.take(j));
                assert(cand[i].1 == after[j]);
            } else {
                assert(after.take(j) =~= before);
                assert(cand[n - 1].1 == after[j]);
            }
        }
    }
}

/// Of the chosen points none lies behind one that was chosen before it, and there are no more of them
/// than edges.
pub proof fn law_chosen_points_see_the_point(data: I8Bin<'_>, l2_metric: bool, f: Factor, cand: Seq<(i64, u32)>, r: nat, i: int, j: int)
    requires
        0 <= i < j < spread(data, l2_metric, f, cand, r, cand.len()).len(),
    ensures
        spread(data, l2_metric, f, cand, r, cand.len()).len() <= r,
        ({
            let chosen = spread(data, l2_metric, f, cand, r, cand.len());
            exists|x: int| 0 <= x < cand.len() && (#[trigger] cand[x]).1 == chosen[j] && !behind(data, l2_metric, f, chosen[i], cand[x])
        }),
{
    lemma_spread(data, l2_metric, f, cand, r, cand.len());
    let chosen = spread(data, l2_metric, f, cand, r, cand.len());
    assert(chosen[j] == chosen[j]);
    let x = choose|x: int| 0 <= x < cand.len() && (#[trigger] cand[x]).1 == chosen[j] && !occluded(data, l2_metric, f, chosen.take(j), cand[x]);
    assert(chosen.take(j)[i] == chosen[i]);
}

proof fn lemma_spread_first(data: I8Bin<'_>, l2_metric: bool, f: Factor, cand: Seq<(i64, u32)>, r: nat, n: nat)
    requires
        1 <= n <= cand.len(),
        r >= 1,
    ensures
        spread(data, l2_metric, f, cand, r, n).len() >= 1,
        spread(data, l2_metric, f, cand, r, n)[0] == cand[0].1,
    decreases n,
{
    if n == 1 {
        assert(spread(data, l2_metric, f, cand, r, 0) =~= Seq::<u32>::empty());
        assert(!occluded(data, l2_metric, f, Seq::<u32>::empty(), cand[0]));
    } else {
        lemma_spread_first(data, l2_metric, f, cand, r, (n - 1) as nat);
    }
}

proof fn lemma_filled_keeps(chosen: Seq<u32>, cand: Seq<(i64, u32)>, r: nat, n: nat)
    ensures
        filled(chosen, cand, r, n).len() >= chosen.len(),
        forall|j: int| 0 <= j < chosen.len() ==> #[trigger] filled(chosen, cand, r, n)[j] == chosen[j],
    decreases n,
{
    if n > 0 {
        lemma_filled_keeps(chosen, cand, r, (n - 1) as nat);
    }
}

/// The nearest candidate is always the first of the pruned edges.
pub proof fn law_nearest_edge_stays(data: I8Bin<'_>, l2_metric: bool, f: Factor, v: int, ids: Seq<u32>, r: nat)
    requires
        r >= 1,
        candidates(data, l2_metric, v, ids).len() > 0,
    ensures
        pruned(data, l2_metric, f, v, ids, r)[0] == candidates(data, l2_metric, v, ids)[0].1,
{
    let cand = candidates(data, l2_metric, v, ids);
    lemma_spread_first(data, l2_metric, f, cand, r, cand.len());
    lemma_filled_keeps(spread(data, l2_metric, f, cand, r, cand.len()), cand, r, cand.len());
}

} // verus!
