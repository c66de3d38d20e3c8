//! How routers are put together: the sizes of their levels, the tree over the centroids, and the
//! router whose centroids are drawn from the rows.
use vstd::prelude::*;
use vstd::slice::slice_subrange;
use crate::hier::{HierRouter, RouteKnobs};
use crate::ibin::I8Bin;
use crate::layout::{bucket, members, Buckets};
use crate::pq::{Pq, MAX_M};
use crate::simd::{assign_nearest, cadj, l2, lemma_row_in_range, row_of, L2_DIM};
use crate::sound::{cadj_of, level_rows};

verus! {

/// Cells of level `l`: a multiple of those of the level above, as near to the asked number as it can be
/// without passing it, and at least as many as there.
pub open spec fn level_count(asked: Seq<usize>, l: nat) -> nat
    decreases l,
{
    if l == 0 {
        if asked[0] > 1 { asked[0] as nat } else { 1 }
    } else {
        let up = level_count(asked, (l - 1) as nat);
        up * fan_out(asked[l as int] as nat, up)
    }
}

/// How many children each of `up` cells has where `asked` are asked for in all.
pub open spec fn fan_out(asked: nat, up: nat) -> nat {
    if asked / up > 1 { asked / up } else { 1 }
}

/// Every level has at least one cell, a whole number for each cell above it, and no more cells than
/// were asked for unless the level above already has more.
pub proof fn law_level_counts_nest(asked: Seq<usize>, l: nat)
    requires
        0 < l < asked.len(),
    ensures
        level_count(asked, (l - 1) as nat) >= 1,
        level_count(asked, l) % level_count(asked, (l - 1) as nat) == 0,
        level_count(asked, l) >= level_count(asked, (l - 1) as nat),
        level_count(asked, l) <= asked[l as int] || level_count(asked, l) == level_count(asked, (l - 1) as nat),
{
    lemma_level_count(asked, (l - 1) as nat);
    let up = level_count(asked, (l - 1) as nat);
    let f = fan_out(asked[l as int] as nat, up);
    let a = asked[l as int] as nat;
    vstd::arithmetic::div_mod::lemma_mod_multiples_basic(f as int, up as int);
    vstd::arithmetic::mul::lemma_mul_is_commutative(f as int, up as int);
    assert(up * f >= up && (f == a / up ==> up * f <= a) && (f == 1 ==> up * f == up)) by (nonlinear_arith)
        requires
            f >= 1,
            up >= 1,
    ;
}

proof fn lemma_level_count(asked: Seq<usize>, l: nat)
    requires
        l < asked.len(),
    ensures
        1 <= level_count(asked, l) <= usize::MAX,
    decreases l,
{
    if l > 0 {
        lemma_level_count(asked, (l - 1) as nat);
        let up = level_count(asked, (l - 1) as nat);
        let a = asked[l as int] as nat;
        let f = fan_out(a, up);
        assert(up * f >= 1 && (f == a / up ==> up * f <= a) && (f == 1 ==> up * f == up)) by (nonlinear_arith)
            requires
                f >= 1,
                up >= 1,
        ;
    }
}

/// The cells of each level of a tree, from the numbers that are asked for.
pub fn level_counts(asked: &Vec<usize>) -> (r: Vec<usize>)
    requires
        asked@.len() >= 1,
    ensures
        r@.len() == asked@.len(),
        forall|l: int| 0 <= l < r@.len() ==> #[trigger] r@[l] == level_count(asked@, l as nat),
{
    let n: usize = asked.len();
    let mut out: Vec<usize> = Vec::new();
    out.push(if asked[0] > 1 { asked[0] } else { 1 });
    let mut l: usize = 1;
    while l < n
        invariant
            1 <= l <= n,
            n == asked@.len(),
            out@.len() == l,
            forall|i: int| 0 <= i < l ==> #[trigger] out@[i] == level_count(asked@, i as nat),
        decreases n - l,
    {
        let up: usize = out[l - 1];
        proof {
            lemma_level_count(asked@, (l - 1) as nat);
            lemma_level_count(asked@, l as nat);
        }
        let fan: usize = if asked[l] / up > 1 { asked[l] / up } else { 1 };
        out.push(up * fan);
        l = l + 1;
    }
    out
}

/// The sum of some counts.
pub open spec fn total(counts: Seq<usize>) -> nat
    decreases counts.len(),
{
    if counts.len() == 0 {
        0
    } else {
        total(counts.drop_last()) + counts.last() as nat
    }
}

/// How many rows a tree is trained on: 300 for each coarsest cell, 6 for each finest one and 10 for
/// each cell of any level, but no more than there are.
pub fn sample_size(n: usize, counts: &Vec<usize>) -> (r: usize)
    requires
        counts@.len() >= 1,
        300 * counts@[0] + 6 * counts@.last() + 10 * total(counts@) <= usize::MAX,
    ensures
        r == (if n < 300 * counts@[0] + 6 * counts@.last() + 10 * total(counts@) {
            n as int
        } else {
            300 * counts@[0] + 6 * counts@.last() + 10 * total(counts@)
        }),
{
    let m: usize = counts.len();
    let mut sum: usize = 0;
    let mut i: usize = 0;
    assert(counts@.take(0) =~= Seq::<usize>::empty());
    while i < m
        invariant
            i <= m,
            m == counts@.len(),
            sum == total(counts@.take(i as int)),
            10 * total(counts@) <= usize::MAX,
        decreases m - i,
    {
        proof {
            assert(counts@.take(i + 1).drop_last() =~= counts@.take(i as int));
            lemma_total_grows(counts@, i + 1);
        }
        sum = sum + counts[i];
        i = i + 1;
    }
    assert(counts@.take(m as int) =~= counts@);
    let want: usize = 300 * counts[0] + 6 * counts[m - 1] + 10 * sum;
    if n < want {
        n
    } else {
        want
    }
}

proof fn lemma_total_grows(counts: Seq<usize>, n: int)
    requires
        0 <= n <= counts.len(),
    ensures
        total(counts.take(n)) <= total(counts),
    decreases counts.len(),
{
    if n < counts.len() {
        assert(counts.take(n) =~= counts.drop_last().take(n));
        lemma_total_grows(counts.drop_last(), n);
    } else {
        assert(counts.take(n) =~= counts);
    }
}

/// How many rows a flat router of `c` cells is trained on: 64 for each cell and at least 200,000, but
/// no more than there are.
pub fn flat_sample_size(n: usize, c: usize) -> (r: usize)
    requires
        64 * c <= usize::MAX,
    ensures
        r == ({
            let want = if 64 * c > 200_000 { 64 * c } else { 200_000 };
            if n < want { n as int } else { want }
        }),
{
    let want: usize = if 64 * c > 200_000 { 64 * c } else { 200_000 };
    if n < want {
        n
    } else {
        want
    }
}

/// The cell of each point one level down: point `i` in cell `p` that its group put into child `j` of it
/// is in cell `p * fan + j`.
pub open spec fn stepped_down(groups: Buckets, local: Seq<u32>, fan: nat, p: int, t: int) -> int {
    p * fan + local[groups.start@[p] + t]
}

/// Where every point goes one level down. `local` holds, group by group, the child that each point of
/// the group was put into.
pub fn step_down(cell: &Vec<u32>, groups: &Buckets, local: &Vec<u32>, par: usize, fan: usize) -> (r: Vec<u32>)
    requires
        groups.group(cell@, 1, par as nat),
        cell@.len() <= u32::MAX,
        forall|i: int| 0 <= i < cell@.len() ==> #[trigger] cell@[i] < par,
        par < usize::MAX,
        local@.len() == cell@.len(),
        forall|i: int| 0 <= i < local@.len() ==> #[trigger] local@[i] < fan,
        par * fan <= u32::MAX,
    ensures
        r@.len() == cell@.len(),
        forall|i: int| 0 <= i < r@.len() ==> (#[trigger] r@[i]) < par * fan && r@[i] as int / fan as int == cell@[i],
        forall|p: int, t: int| 0 <= p < par && 0 <= t < groups.of(p).len() ==> r@[(#[trigger] groups.of(p)[t]) as int] == stepped_down(*groups, local@, fan as nat, p, t),
{
    let n: usize = cell.len();
    let mut out: Vec<u32> = vec![0u32; n];
    let mut p: usize = 0;
    proof {
        crate::ivf::lemma_buckets_hold_points(*groups, cell@, 1, par as nat, n as nat);
    }
    while p < par
        invariant
            p <= par,
            par < usize::MAX,
            n == cell@.len(),
            n <= u32::MAX,
            groups.group(cell@, 1, par as nat),
            forall|x: int, y: int| 0 <= x <= y <= par ==> #[trigger] groups.start@[x] <= #[trigger] groups.start@[y],
            groups.start@[par as int] == n,
            groups.ids@.len() == n,
            forall|t: int| 0 <= t < groups.ids@.len() ==> #[trigger] groups.ids@[t] < n,
            local@.len() == n,
            forall|i: int| 0 <= i < local@.len() ==> #[trigger] local@[i] < fan,
            par * fan <= u32::MAX,
            out@.len() == n,
            forall|x: int, t: int| 0 <= x < p && 0 <= t < groups.of(x).len() ==> out@[(#[trigger] groups.of(x)[t]) as int] == stepped_down(*groups, local@, fan as nat, x, t),
        decreases par - p,
    {
        assert(groups.start@[p as int] <= groups.start@[p + 1] <= groups.start@[par as int]);
        let s: usize = groups.start[p] as usize;
        let e: usize = groups.start[p + 1] as usize;
        let ghost own = groups.of(p as int);
        assert(own == members(cell@, 1, p as int, cell@.len()));
        let mut t: usize = s;
        while t < e
            invariant
                s <= t <= e,
                p < par,
                n == cell@.len(),
                n <= u32::MAX,
                s == groups.start@[p as int],
                e == groups.start@[p + 1],
                e <= n,
                own == groups.of(p as int),
                groups.group(cell@, 1, par as nat),
                groups.ids@.len() == n,
                forall|x: int| 0 <= x < groups.ids@.len() ==> #[trigger] groups.ids@[x] < n,
                local@.len() == n,
                forall|i: int| 0 <= i < local@.len() ==> #[trigger] local@[i] < fan,
                par * fan <= u32::MAX,
                out@.len() == n,
                forall|x: int, y: int| 0 <= x < p && 0 <= y < groups.of(x).len() ==> out@[(#[trigger] groups.of(x)[y]) as int] == stepped_down(*groups, local@, fan as nat, x, y),
                forall|y: int| 0 <= y < t - s ==> out@[(#[trigger] own[y]) as int] == stepped_down(*groups, local@, fan as nat, p as int, y),
            decreases e - t,
        {
            let ghost before = out@;
            assert(p * fan + fan <= par * fan) by (nonlinear_arith)
                requires
                    p < par,
            ;
            assert(0 <= p * fan) by (nonlinear_arith);
            assert(local@[t as int] < fan);
            let id: u32 = groups.ids[t];
            assert(id == own[t - s]);
            out.set(id as usize, (p * fan) as u32 + local[t]);
            proof {
                assert forall|x: int, y: int| 0 <= x < p && 0 <= y < groups.of(x).len() implies out@[(#[trigger] groups.of(x)[y]) as int] == stepped_down(*groups, local@, fan as nat, x, y) by {
                    lemma_member_cells(cell@, x, cell@.len());
                    lemma_member_cells(cell@, p as int, cell@.len());
                    assert(groups.of(x) == members(cell@, 1, x, cell@.len()));
                    assert(cell@[members(cell@, 1, x, cell@.len())[y] as int] == x);
                    assert(cell@[members(cell@, 1, p as int, cell@.len())[t - s] as int] == p);
                }
                assert forall|y: int| 0 <= y < t - s + 1 implies out@[(#[trigger] own[y]) as int] == stepped_down(*groups, local@, fan as nat, p as int, y) by {
                    if y < t - s {
                        lemma_member_cells(cell@, p as int, cell@.len());
                        assert(own == members(cell@, 1, p as int, cell@.len()));
                        assert(own[y] < own[t - s]);
                        assert(before[own[y] as int] == stepped_down(*groups, local@, fan as nat, p as int, y));
                    }
                }
            }
            t = t + 1;
        }
        p = p + 1;
    }
    proof {
        assert forall|i: int| 0 <= i < n implies (#[trigger] out@[i]) < par * fan && out@[i] as int / fan as int == cell@[i] by {
            let c = cell@[i] as int;
            lemma_has_member(cell@, c, cell@.len(), i);
            let own = members(cell@, 1, c, cell@.len());
            let t = choose|t: int| 0 <= t < own.len() && own[t] == i;
            assert(groups.of(c) == own);
            assert(groups.of(c)[t] == i);
            assert(out@[groups.of(c)[t] as int] == stepped_down(*groups, local@, fan as nat, c, t));
            assert(groups.start@[c] <= groups.start@[c + 1] <= groups.start@[par as int]);
            let j = local@[groups.start@[c] + t] as int;
            assert(0 <= j < fan);
            vstd::arithmetic::div_mod::lemma_fundamental_div_mod_converse(c * fan + j, fan as int, c, j);
            assert(c * fan + j < par * fan) by (nonlinear_arith)
                requires
                    c < par,
                    j < fan,
            ;
        }
    }
    out
}

/// With one cell to a point, the members of a cell are the points in it, in their order.
proof fn lemma_member_cells(cell: Seq<u32>, c: int, n: nat)
    requires
        n <= cell.len(),
        n <= u32::MAX,
    ensures
        forall|t: int| 0 <= t < members(cell, 1, c, n).len() ==> (#[trigger] members(cell, 1, c, n)[t]) < n && cell[members(cell, 1, c, n)[t] as int] == c,
        forall|s: int, t: int| 0 <= s < t < members(cell, 1, c, n).len() ==> (#[trigger] members(cell, 1, c, n)[s]) < (#[trigger] members(cell, 1, c, n)[t]),
    decreases n,
{
    if n > 0 {
        lemma_member_cells(cell, c, (n - 1) as nat);
        let before = members(cell, 1, c, (n - 1) as nat);
        let after = members(cell, 1, c, n);
        assert((n - 1) / 1int == n - 1);
        assert forall|t: int| 0 <= t < after.len() implies (#[trigger] after[t]) < n && cell[after[t] as int] == c by {
            if t < before.len() {
                assert(after[t] == before[t]);
            }
        }
        assert forall|s: int, t: int| 0 <= s < t < after.len() implies (#[trigger] after[s]) < (#[trigger] after[t]) by {
            assert(after[s] == before[s]);
            if t < before.len() {
                assert(after[t] == before[t]);
            }
        }
    }
}

proof fn lemma_has_member(cell: Seq<u32>, c: int, n: nat, i: int)
    requires
        0 <= i < n <= cell.len(),
        n <= u32::MAX,
        cell[i] == c,
    ensures
        exists|t: int| 0 <= t < members(cell, 1, c, n).len() && members(cell, 1, c, n)[t] == i,
    decreases n,
{
    let before = members(cell, 1, c, (n - 1) as nat);
    let after = members(cell, 1, c, n);
    assert((n - 1) / 1int == n - 1);
    if i == n - 1 {
        assert(after[before.len() as int] == i);
    } else {
        lemma_has_member(cell, c, (n - 1) as nat, i);
        let t = choose|t: int| 0 <= t < before.len() && before[t] == i;
        assert(after[t] == i);
    }
}

/// Where the children of each of `par` cells start where each has `fan` of them.
pub fn even_children(par: usize, fan: usize) -> (r: Vec<u32>)
    requires
        par < usize::MAX,
        par * fan <= u32::MAX,
    ensures
        r@.len() == par + 1,
        forall|p: int| 0 <= p <= par ==> #[trigger] r@[p] == p * fan,
{
    let mut out: Vec<u32> = Vec::new();
    out.push(0);
    let mut p: usize = 0;
    assert(0 * fan == 0) by (nonlinear_arith);
    while p < par
        invariant
            p <= par,
            par < usize::MAX,
            par * fan <= u32::MAX,
            out@.len() == p + 1,
            forall|x: int| 0 <= x <= p ==> #[trigger] out@[x] == x * fan,
        decreases par - p,
    {
        assert((p + 1) * fan == p * fan + fan && (p + 1) * fan <= par * fan && fan <= par * fan) by (nonlinear_arith)
            requires
                p < par,
        ;
        assert(out@[p as int] == p * fan);
        let last: u32 = out[p];
        out.push(last + fan as u32);
        p = p + 1;
    }
    out
}

/// In an even tree a cell lies under exactly one cell of the level above: its number divided by the
/// fan-out.
pub proof fn law_even_tree_has_one_parent(par: nat, fan: nat, p: int, c: int)
    requires
        fan > 0,
        0 <= p < par,
        0 <= c < par * fan,
    ensures
        (p * fan <= c < (p + 1) * fan) <==> p == c / (fan as int),
{
    assert((p * fan <= c < (p + 1) * fan) <==> p == c / (fan as int)) by (nonlinear_arith)
        requires
            fan > 0,
            0 <= c,
    {
        let q = c / (fan as int);
        let f = fan as int;
        assert(q * f <= c < (q + 1) * f);
        if p < q {
            assert((p + 1) * f <= q * f);
        }
        if p > q {
            assert((q + 1) * f <= p * f);
        }
    }
}

/// The byte that packs the codes of two subspaces.
pub open spec fn two_codes(lo: u8, hi: u8) -> u8 {
    (lo % 16 + 16 * (hi % 16)) as u8
}

/// Pack the codes of the finest centroids in blocks of 16 centroids.
pub fn route_blocks(codes: &Vec<u8>, kf: usize, m: usize) -> (r: Vec<u8>)
    requires
        kf % 16 == 0,
        codes@.len() == kf * m,
    ensures
        r@.len() == (kf / 16) * ((m / 2) * 16),
        forall|b: int, g: int, i: int|
            0 <= b < kf / 16 && 0 <= g < m / 2 && 0 <= i < 16 ==> r@[#[trigger] block_byte(b, (m / 2) as int, g, i)] == two_codes(codes@[(16 * b + i) * m + 2 * g], codes@[(16 * b + i) * m + 2 * g + 1]),
{
    let len: usize = codes.len();
    let nb: usize = kf / 16;
    let half: usize = m / 2;
    let mut out: Vec<u8> = Vec::new();
    let mut b: usize = 0;
    assert(0 * (half * 16) == 0) by (nonlinear_arith);
    while b < nb
        invariant
            b <= nb,
            nb == kf / 16,
            kf % 16 == 0,
            half == m / 2,
            len == codes@.len(),
            len == kf * m,
            out@.len() == b * (half * 16),
            forall|x: int, g: int, i: int|
                0 <= x < b && 0 <= g < half && 0 <= i < 16 ==> out@[#[trigger] block_byte(x, half as int, g, i)] == two_codes(codes@[(16 * x + i) * m + 2 * g], codes@[(16 * x + i) * m + 2 * g + 1]),
        decreases nb - b,
    {
        let ghost start = out@;
        let mut g: usize = 0;
        while g < half
            invariant
                g <= half,
                b < nb,
                nb == kf / 16,
                kf % 16 == 0,
                half == m / 2,
                len == codes@.len(),
                len == kf * m,
                out@.len() == b * (half * 16) + g * 16,
                start.len() == b * (half * 16),
                forall|p: int| 0 <= p < start.len() ==> out@[p] == start[p],
                forall|y: int, i: int| 0 <= y < g && 0 <= i < 16 ==> out@[#[trigger] block_byte(b as int, half as int, y, i)] == two_codes(codes@[(16 * b + i) * m + 2 * y], codes@[(16 * b + i) * m + 2 * y + 1]),
            decreases half - g,
        {
            let mut i: usize = 0;
            while i < 16
                invariant
                    i <= 16,
                    g < half,
                    b < nb,
                    nb == kf / 16,
                    kf % 16 == 0,
                    half == m / 2,
                    len == codes@.len(),
                    len == kf * m,
                    out@.len() == b * (half * 16) + g * 16 + i,
                    start.len() == b * (half * 16),
                    forall|p: int| 0 <= p < start.len() ==> out@[p] == start[p],
                    forall|y: int, j: int| 0 <= y < half && 0 <= j < 16 && (y < g || (y == g && j < i)) ==> out@[#[trigger] block_byte(b as int, half as int, y, j)] == two_codes(codes@[(16 * b + j) * m + 2 * y], codes@[(16 * b + j) * m + 2 * y + 1]),
                decreases 16 - i,
            {
                let c: usize = 16 * b + i;
                proof {
                    lemma_row_in_range(c as int, m as int, kf as int, len as int);
                    lemma_block_byte(b as int, half as int, g as int, i as int);
                }
                let lo: u8 = codes[c * m + 2 * g];
                let hi: u8 = codes[c * m + 2 * g + 1];
                let ghost before = out@;
                out.push(lo % 16 + 16 * (hi % 16));
                proof {
                    assert forall|y: int, j: int| 0 <= y < half && 0 <= j < 16 && (y < g || (y == g && j < i + 1)) implies out@[#[trigger] block_byte(b as int, half as int, y, j)] == two_codes(codes@[(16 * b + j) * m + 2 * y], codes@[(16 * b + j) * m + 2 * y + 1]) by {
                        lemma_block_byte(b as int, half as int, y, j);
                        if y < g || j < i {
                            assert(before[block_byte(b as int, half as int, y, j)] == two_codes(codes@[(16 * b + j) * m + 2 * y], codes@[(16 * b + j) * m + 2 * y + 1]));
                        }
                    }
                }
                i = i + 1;
            }
            g = g + 1;
        }
        proof {
            assert((b + 1) * (half * 16) == b * (half * 16) + half * 16) by (nonlinear_arith);
            assert forall|x: int, y: int, i: int|
                0 <= x < b + 1 && 0 <= y < half && 0 <= i < 16 implies out@[#[trigger] block_byte(x, half as int, y, i)] == two_codes(codes@[(16 * x + i) * m + 2 * y], codes@[(16 * x + i) * m + 2 * y + 1]) by {
                if x < b {
                    lemma_block_byte(x, half as int, y, i);
                    assert((x + 1) * (half * 16) <= b * (half * 16)) by (nonlinear_arith)
                        requires
                            x + 1 <= b,
                            half >= 0,
                    ;
                    assert(start[block_byte(x, half as int, y, i)] == out@[block_byte(x, half as int, y, i)]);
                }
            }
        }
        b = b + 1;
    }
    out
}

/// Where the byte of group `g` of lane `i` of block `b` stands.
pub open spec fn block_byte(b: int, half: int, g: int, i: int) -> int {
    (b * half + g) * 16 + i
}

proof fn lemma_block_byte(b: int, half: int, g: int, i: int)
    requires
        0 <= b,
        0 <= g < half,
        0 <= i < 16,
    ensures
        block_byte(b, half, g, i) == b * (half * 16) + g * 16 + i,
        0 <= block_byte(b, half, g, i) < (b + 1) * (half * 16),
{
    assert((b * half + g) * 16 == b * (half * 16) + g * 16 && (b + 1) * (half * 16) == b * (half * 16) + half * 16 && b * (half * 16) >= 0) by (nonlinear_arith)
        requires
            0 <= b,
            0 <= half,
    ;
}

/// The counts of an even tree: each a positive multiple of the one before.
pub open spec fn even_counts(counts: Seq<usize>) -> bool {
    &&& counts.len() >= 2
    &&& forall|l: int| 0 <= l < counts.len() ==> 0 < #[trigger] counts[l] <= u32::MAX && counts[l] < usize::MAX
    &&& forall|l: int| 0 <= l < counts.len() - 1 ==> #[trigger] divides(counts[l], counts[l + 1])
}

/// `a` divides `b`.
pub open spec fn divides(a: usize, b: usize) -> bool {
    b as int % a as int == 0
}

impl HierRouter {
    /// Put a router together from the centroids of its levels: an even tree, with the constants of the
    /// distance kernel and, where the finest centroids have codes, the codes packed in blocks.
    pub fn grow(
        d: usize,
        mu: Vec<u32>,
        counts: &Vec<usize>,
        cent: Vec<Vec<i8>>,
        beam: Vec<usize>,
        radc: Option<Pq>,
        rcodes: Vec<u8>,
        cent_f16: Vec<Vec<u16>>,
        knobs: RouteKnobs,
    ) -> (r: HierRouter)
        requires
            0 < d <= L2_DIM,
            even_counts(counts@),
            cent@.len() == counts@.len(),
            beam@.len() == counts@.len() - 1,
            forall|l: int| 0 <= l < counts@.len() ==> (#[trigger] cent@[l])@.len() == counts@[l] * d,
            match radc {
                Some(p) => p.m % 2 == 0 && p.m <= MAX_M && rcodes@.len() == counts@.last() * p.m && forall|i: int| 0 <= i < rcodes@.len() ==> #[trigger] rcodes@[i] < 16,
                None => true,
            },
        ensures
            r.wf(),
            r.d == d,
            r.mu == mu,
            r.levels == counts@.len(),
            r.kf == counts@.last(),
            r.cent == cent,
            r.beam == beam,
            r.radc == radc,
            r.rcodes == rcodes,
            r.cent_f16 == cent_f16,
            r.knobs == knobs,
            r.soar == 0,
            r.gbias@.len() == 0,
            r.cadj@.len() == r.levels,
            forall|l: int, p: int| 0 <= l < r.levels - 1 && 0 <= p <= counts@[l] ==> #[trigger] r.child@[l]@[p] == p * (counts@[l + 1] as int / counts@[l] as int),
            r.child@[r.levels - 1]@.len() == 0,
            radc is None ==> r.rblocks@.len() == 0,
            radc is Some && r.kf % 16 == 0 ==> r.blocks_ok(),
            radc is Some && r.kf % 16 != 0 ==> r.rblocks@ == Seq::new(((r.kf / 16) as nat * ((r.adc_m() / 2) * 16)) as nat, |i: int| 0u8),
    {
        let levels: usize = counts.len();
        let ghost all = cent@;
        let mut child: Vec<Vec<u32>> = Vec::new();
        let mut l: usize = 0;
        while l + 1 < levels
            invariant
                l + 1 <= levels,
                levels == counts@.len(),
                even_counts(counts@),
                child@.len() == l,
                forall|x: int| 0 <= x < l ==> (#[trigger] child@[x])@.len() == counts@[x] + 1,
                forall|x: int, p: int| 0 <= x < l && 0 <= p <= counts@[x] ==> #[trigger] child@[x]@[p] == p * (counts@[x + 1] as int / counts@[x] as int),
            decreases levels - l,
        {
            let par: usize = counts[l];
            let next: usize = counts[l + 1];
            assert(divides(counts@[l as int], counts@[l + 1]));
            proof {
                vstd::arithmetic::div_mod::lemma_fundamental_div_mod(next as int, par as int);
            }
            child.push(even_children(par, next / par));
            l = l + 1;
        }
        child.push(Vec::new());
        let adjust: Vec<Vec<i32>> = cadj_of(&cent, d);
        let kf: usize = counts[levels - 1];
        let clen: usize = rcodes.len();
        let rblocks: Vec<u8> = match &radc {
            Some(p) => if kf % 16 == 0 {
                route_blocks(&rcodes, kf, p.m)
            } else {
                proof {
                    let (x, m) = (kf as int / 16, p.m as int);
                    assert(x * (m / 2 * 16) <= kf * m) by (nonlinear_arith)
                        requires
                            x == kf as int / 16,
                            m >= 0,
                    ;
                    assert(kf * m == clen);
                    assert(x * (m / 2 * 16) >= 0) by (nonlinear_arith)
                        requires
                            x >= 0,
                            m >= 0,
                    ;
                }
                let unused: usize = (kf / 16) * ((p.m / 2) * 16);
                vec![0u8; unused]
            },
            None => Vec::new(),
        };
        let r: HierRouter = HierRouter { d, mu, kf, levels, cent, child, beam, soar: 0, radc, rcodes, rblocks, cadj: adjust, gbias: Vec::new(), cent_f16, knobs };
        proof {
            assert forall|l: int| 0 <= l < r.levels implies r.count(l) == counts@[l] && #[trigger] r.level_ok(l) by {
                assert(r.cent@[l]@.len() == counts@[l] * d);
                vstd::arithmetic::div_mod::lemma_div_by_multiple(counts@[l] as int, d as int);
            }
            assert forall|l: int| 0 <= l < r.levels - 1 implies #[trigger] r.tree_ok(l) by {
                assert(r.level_ok(l) && r.level_ok(l + 1));
                assert(divides(counts@[l], counts@[l + 1]));
                let par = counts@[l] as int;
                let next = counts@[l + 1] as int;
                let fan = next / par;
                vstd::arithmetic::div_mod::lemma_fundamental_div_mod(next, par);
                let c = r.child@[l]@;
                assert(c.len() == par + 1);
                assert forall|i: int, j: int| 0 <= i <= j < c.len() implies #[trigger] c[i] <= #[trigger] c[j] by {
                    assert(i * fan <= j * fan) by (nonlinear_arith)
                        requires
                            i <= j,
                            fan >= 0,
                    ;
                }
                assert forall|i: int| 0 <= i < c.len() implies #[trigger] c[i] <= r.count(l + 1) by {
                    assert(i * fan <= par * fan) by (nonlinear_arith)
                        requires
                            i <= par,
                            fan >= 0,
                    ;
                    assert(par * fan == next);
                }
            }
            assert forall|l: int| 0 <= l < r.levels implies #[trigger] r.cadj_ok(l) by {
                assert(r.level_ok(l));
                assert(r.cadj@[l]@.len() == level_rows(all[l]@, d as nat));
                assert forall|c: int| 0 <= c < r.count(l) implies #[trigger] r.cadj@[l]@[c] == cadj(r.centroid(l, c)) by {
                }
            }
            assert(r.level_ok(r.levels - 1));
            if r.radc is Some && kf % 16 == 0 {
                let m = r.adc_m();
                assert forall|b: int, g: int, i: int|
                    0 <= b < r.kf / 16 && 0 <= g < m / 2 && 0 <= i < 16 implies (#[trigger] r.packed_at(b, g, i)) % 16 == r.rcodes@[(16 * b + i) * m + 2 * g] && r.packed_at(b, g, i) / 16 == r.rcodes@[(16 * b + i) * m + 2 * g + 1] by {
                    assert(r.rblocks@[block_byte(b, m as int / 2, g, i)] == r.packed_at(b, g, i));
                    let c = 16 * b + i;
                    lemma_row_in_range(c, m as int, kf as int, r.rcodes@.len() as int);
                    assert(r.rcodes@[c * m + 2 * g] < 16);
                    assert(r.rcodes@[c * m + 2 * g + 1] < 16);
                }
            }
        }
        r
    }
}

/// The seed of the generator that draws the centroids of a drawn tree.
pub const TREE_SEED: u64 = 0x77c0_ffee;

/// The seed of that generator after `n` steps.
pub open spec fn tree_seed(n: nat) -> u64
    decreases n,
{
    if n == 0 {
        TREE_SEED
    } else {
        tree_seed((n - 1) as nat).wrapping_mul(6364136223846793005).wrapping_add(1)
    }
}

/// Draw number `n`, one of `m` numbers.
pub open spec fn tree_draw(n: nat, m: nat) -> int {
    (tree_seed(n + 1) >> 11) as int % m as int
}

/// The `count` draws from number `from` on, each one of `m` numbers.
fn draws(from: usize, count: usize, m: usize) -> (r: Vec<usize>)
    requires
        m > 0,
        from + count <= usize::MAX,
    ensures
        r@.len() == count,
        forall|j: int| 0 <= j < count ==> #[trigger] r@[j] == tree_draw((from + j) as nat, m as nat) && r@[j] < m,
{
    let mut out: Vec<usize> = Vec::new();
    let mut seed: u64 = TREE_SEED;
    let mut n: usize = 0;
    while n < from
        invariant
            n <= from,
            seed == tree_seed(n as nat),
        decreases from - n,
    {
        seed = seed.wrapping_mul(6364136223846793005).wrapping_add(1);
        n = n + 1;
    }
    let mut j: usize = 0;
    while j < count
        invariant
            j <= count,
            m > 0,
            from + count <= usize::MAX,
            seed == tree_seed((from + j) as nat),
            out@.len() == j,
            forall|i: int| 0 <= i < j ==> #[trigger] out@[i] == tree_draw((from + i) as nat, m as nat) && out@[i] < m,
        decreases count - j,
    {
        seed = seed.wrapping_mul(6364136223846793005).wrapping_add(1);
        let id: u64 = (seed >> 11) % (m as u64);
        out.push(id as usize);
        j = j + 1;
    }
    out
}

/// The first of `c` pivots at the least distance from a row.
pub open spec fn is_nearest(x: Seq<i8>, pivots: Seq<i8>, d: nat, c: nat, j: int) -> bool {
    &&& 0 <= j < c
    &&& forall|i: int| 0 <= i < c ==> l2(x, row_of(pivots, d, j)) <= l2(x, #[trigger] row_of(pivots, d, i))
    &&& forall|i: int| 0 <= i < j ==> l2(x, row_of(pivots, d, j)) < l2(x, #[trigger] row_of(pivots, d, i))
}

/// The nearest coarse centroid of every fine one.
fn nearest_coarse(fine: &Vec<i8>, coarse: &Vec<i8>, d: usize, kf: usize, c0: usize) -> (r: Vec<u32>)
    requires
        0 < d <= L2_DIM,
        fine@.len() == kf * d,
        coarse@.len() == c0 * d,
        0 < c0 <= u32::MAX,
    ensures
        r@.len() == kf,
        forall|j: int| 0 <= j < kf ==> is_nearest(row_of(fine@, d as nat, j), coarse@, d as nat, c0 as nat, #[trigger] r@[j] as int),
{
    let len: usize = fine.len();
    let mut out: Vec<u32> = Vec::new();
    let mut j: usize = 0;
    proof {
        vstd::arithmetic::div_mod::lemma_div_by_multiple(c0 as int, d as int);
    }
    while j < kf
        invariant
            j <= kf,
            len == fine@.len(),
            0 < d <= L2_DIM,
            len == kf * d,
            coarse@.len() == c0 * d,
            coarse@.len() / (d as nat) == c0,
            0 < c0 <= u32::MAX,
            out@.len() == j,
            forall|i: int| 0 <= i < j ==> is_nearest(row_of(fine@, d as nat, i), coarse@, d as nat, c0 as nat, #[trigger] out@[i] as int),
        decreases kf - j,
    {
        proof {
            lemma_row_in_range(j as int, d as int, kf as int, len as int);
        }
        let row: &[i8] = slice_subrange(fine.as_slice(), j * d, j * d + d);
        assert(row@ =~= row_of(fine@, d as nat, j as int));
        let (c, _) = assign_nearest(row, coarse.as_slice(), d);
        out.push(c);
        j = j + 1;
    }
    out
}

impl HierRouter {
    /// A tree of two levels with drawn centroids: `kf` fine ones drawn from normalised rows, `c0` coarse
    /// ones drawn from the fine ones, and the fine ones laid out under their nearest coarse one.
    pub fn train(norm: &I8Bin<'_>, kf: usize, c0: usize, b0: usize, mu: Vec<u32>, knobs: RouteKnobs) -> (r: HierRouter)
        requires
            norm.wf(),
            0 < norm.nb,
            0 < norm.d <= L2_DIM,
            0 < kf <= u32::MAX,
            0 < c0 <= u32::MAX,
            c0 < usize::MAX,
            kf * norm.d <= usize::MAX,
            c0 * norm.d <= usize::MAX,
            kf + c0 <= usize::MAX,
        ensures
            r.wf(),
            r.d == norm.d,
            r.kf == kf,
            r.levels == 2,
            r.count(0) == c0,
            r.mu == mu,
            r.beam@ == seq![b0],
            r.knobs == knobs,
            r.radc is None,
            r.rcodes@.len() == 0,
            r.rblocks@.len() == 0,
            r.cent_f16@.len() == 0,
            r.soar == 0,
            r.gbias@.len() == 0,
            r.cadj@.len() == 2,
            r.child@[1]@.len() == 0,
            exists|f2c: Seq<u32>, laid: Buckets| #[trigger] laid.group(f2c, 1, c0 as nat) && f2c.len() == kf && drawn_tree(r, *norm, kf as nat, c0 as nat, f2c, laid),
    {
        let d: usize = norm.d;
        let fine_ids: Vec<usize> = draws(0, kf, norm.nb);
        let fine: Vec<i8> = crate::ivf::copy_rows(norm, &fine_ids);
        let coarse_ids: Vec<usize> = draws(kf, c0, kf);
        let fine_rows: I8Bin<'_> = I8Bin { nb: kf, d, data: fine.as_slice() };
        let coarse: Vec<i8> = crate::ivf::copy_rows(&fine_rows, &coarse_ids);
        let f2c: Vec<u32> = nearest_coarse(&fine, &coarse, d, kf, c0);
        proof {
            assert forall|i: int| 0 <= i < f2c@.len() implies #[trigger] f2c@[i] < c0 by {
                assert(is_nearest(row_of(fine@, d as nat, i), coarse@, d as nat, c0 as nat, f2c@[i] as int));
            }
        }
        let laid: Buckets = bucket(&f2c, 1, c0);
        proof {
            crate::ivf::lemma_buckets_hold_points(laid, f2c@, 1, c0 as nat, kf as nat);
        }
        let mut order: Vec<usize> = Vec::new();
        let mut j: usize = 0;
        while j < kf
            invariant
                j <= kf,
                laid.ids@.len() == kf,
                forall|t: int| 0 <= t < kf ==> #[trigger] laid.ids@[t] < kf,
                order@.len() == j,
                forall|t: int| 0 <= t < j ==> #[trigger] order@[t] == laid.ids@[t],
            decreases kf - j,
        {
            order.push(laid.ids[j] as usize);
            j = j + 1;
        }
        let placed: Vec<i8> = crate::ivf::copy_rows(&fine_rows, &order);
        let ghost starts = laid.start@;
        let first: Vec<u32> = crate::hier::copy_ids(&laid.start);
        let mut cent: Vec<Vec<i8>> = Vec::new();
        cent.push(coarse);
        cent.push(placed);
        let mut child: Vec<Vec<u32>> = Vec::new();
        child.push(first);
        child.push(Vec::new());
        let mut beam: Vec<usize> = Vec::new();
        beam.push(b0);
        let adjust: Vec<Vec<i32>> = cadj_of(&cent, d);
        let ghost all = cent@;
        let r: HierRouter = HierRouter { d, mu, kf, levels: 2, cent, child, beam, soar: 0, radc: None, rcodes: Vec::new(), rblocks: Vec::new(), cadj: adjust, gbias: Vec::new(), cent_f16: Vec::new(), knobs };
        proof {
            vstd::arithmetic::div_mod::lemma_div_by_multiple(c0 as int, d as int);
            vstd::arithmetic::div_mod::lemma_div_by_multiple(kf as int, d as int);
            assert(r.count(0) == c0 && r.count(1) == kf);
            assert(r.level_ok(0) && r.level_ok(1));
            assert(r.tree_ok(0)) by {
                let c = r.child@[0]@;
                assert(c == starts);
                assert forall|i: int| 0 <= i < c.len() implies #[trigger] c[i] <= r.count(1) by {
                    assert(starts[i] <= starts[c0 as int]);
                }
            }
            assert forall|l: int| 0 <= l < 2 implies #[trigger] r.cadj_ok(l) by {
                assert(r.level_ok(l));
                assert(r.cadj@[l]@.len() == level_rows(all[l]@, d as nat));
                assert forall|c: int| 0 <= c < r.count(l) implies #[trigger] r.cadj@[l]@[c] == cadj(r.centroid(l, c)) by {
                }
            }
            assert(r.beam@ =~= seq![b0]);
            assert forall|j: int| 0 <= j < c0 implies #[trigger] r.centroid(0, j) == norm.spec_row(tree_draw(tree_draw((kf + j) as nat, kf as nat) as nat, norm.nb as nat)) by {
                let x = coarse_ids@[j] as int;
                assert(row_of(r.cent@[0]@, d as nat, j) == fine_rows.spec_row(x));
                assert(row_of(fine@, d as nat, x) == norm.spec_row(fine_ids@[x] as int));
            }
            assert forall|t: int| 0 <= t < kf implies #[trigger] r.centroid(1, t) == norm.spec_row(tree_draw(laid.ids@[t] as nat, norm.nb as nat)) by {
                let x = order@[t] as int;
                assert(row_of(r.cent@[1]@, d as nat, t) == fine_rows.spec_row(x));
                assert(row_of(fine@, d as nat, x) == norm.spec_row(fine_ids@[x] as int));
            }
            assert forall|j: int| 0 <= j < kf implies is_nearest(norm.spec_row(tree_draw(j as nat, norm.nb as nat)), r.cent@[0]@, d as nat, c0 as nat, #[trigger] f2c@[j] as int) by {
                assert(row_of(fine@, d as nat, j) == norm.spec_row(fine_ids@[j] as int));
            }
            assert(drawn_tree(r, *norm, kf as nat, c0 as nat, f2c@, laid));
        }
        r
    }
}

/// A drawn tree: `f2c` gives the coarse cell of each drawn fine centroid, and `laid` their layout.
pub open spec fn drawn_tree(r: HierRouter, norm: I8Bin<'_>, kf: nat, c0: nat, f2c: Seq<u32>, laid: Buckets) -> bool {
    &&& forall|j: int| 0 <= j < c0 ==> #[trigger] r.centroid(0, j) == norm.spec_row(tree_draw(tree_draw((kf + j) as nat, kf) as nat, norm.nb as nat))
    &&& forall|t: int| 0 <= t < kf ==> #[trigger] r.centroid(1, t) == norm.spec_row(tree_draw(laid.ids@[t] as nat, norm.nb as nat))
    &&& forall|j: int| 0 <= j < kf ==> is_nearest(norm.spec_row(tree_draw(j as nat, norm.nb as nat)), r.cent@[0]@, norm.d as nat, c0, #[trigger] f2c[j] as int)
    &&& r.child@[0]@ == laid.start@
}

/// The cell of a pair of codebook entries, where the second codebook has `n1` entries.
pub open spec fn pair_cell(i0: int, i1: int, n1: int) -> int {
    i0 * n1 + i1
}

/// A cell of a two-codebook index stands for one pair of entries, and every pair for one cell.
pub proof fn law_pairs_and_cells_match(i0: int, i1: int, n0: int, n1: int)
    requires
        0 <= i0 < n0,
        0 <= i1 < n1,
    ensures
        0 <= pair_cell(i0, i1, n1) < n0 * n1,
        pair_cell(i0, i1, n1) / n1 == i0,
        pair_cell(i0, i1, n1) % n1 == i1,
{
    vstd::arithmetic::div_mod::lemma_fundamental_div_mod_converse(i0 * n1 + i1, n1, i0, i1);
    assert(0 <= i0 * n1 && i0 * n1 + i1 < n0 * n1) by (nonlinear_arith)
        requires
            0 <= i0 < n0,
            0 <= i1 < n1,
    ;
}

/// The cells of all points of a two-codebook index.
pub fn pair_cells(first: &Vec<u32>, second: &Vec<u32>, n0: usize, n1: usize) -> (r: Vec<u32>)
    requires
        first@.len() == second@.len(),
        n0 * n1 <= u32::MAX,
        forall|i: int| 0 <= i < first@.len() ==> #[trigger] first@[i] < n0,
        forall|i: int| 0 <= i < second@.len() ==> #[trigger] second@[i] < n1,
    ensures
        r@.len() == first@.len(),
        forall|i: int| 0 <= i < r@.len() ==> #[trigger] r@[i] == pair_cell(first@[i] as int, second@[i] as int, n1 as int) && r@[i] < n0 * n1,
{
    let n: usize = first.len();
    let mut out: Vec<u32> = Vec::new();
    let mut i: usize = 0;
    while i < n
        invariant
            i <= n,
            n == first@.len(),
            n == second@.len(),
            n0 * n1 <= u32::MAX,
            forall|j: int| 0 <= j < first@.len() ==> #[trigger] first@[j] < n0,
            forall|j: int| 0 <= j < second@.len() ==> #[trigger] second@[j] < n1,
            out@.len() == i,
            forall|j: int| 0 <= j < i ==> #[trigger] out@[j] == pair_cell(first@[j] as int, second@[j] as int, n1 as int) && out@[j] < n0 * n1,
        decreases n - i,
    {
        let a: u32 = first[i];
        let b: u32 = second[i];
        proof {
            law_pairs_and_cells_match(a as int, b as int, n0 as int, n1 as int);
            assert(a * n1 <= a * n1 + b);
            assert(0 <= a * n1) by (nonlinear_arith)
                requires
                    a >= 0,
                    n1 >= 0,
            ;
        }
        out.push((a as usize * n1) as u32 + b);
        i = i + 1;
    }
    out
}

} // verus!
