//! What lists hold: every choice, every candidate, every assigned point, each number of a text.

use crate::adaptive::occupied;
use crate::built::lemma_members_rise;
use crate::compress::{Compressor, QueryCtx};
use crate::counted::law_listing_follows_the_slots;
use crate::descent::{distinct, lemma_ranked, start_age};
use crate::dump::{cell_pairs, held, law_every_held_point_is_listed, slot_pairs};
use crate::fused::lane_pool;
use crate::hier::HierRouter;
use crate::ibin::I8Bin;
use crate::index::Index;
use crate::knn::{completed, drawn, falling, ranked, reverse_edge, tag, Backward, Edge};
use crate::layout::{members, Buckets};
use crate::plan::choices;
use crate::prune::{row_in, two_way};
use crate::rerank::NO_POINT;
use crate::router::Router;
use crate::simd::{l2, row_of};
use crate::text::{number, number_list, numbers_in, pieces, trimmed};
use crate::training::{drawn_tree, is_nearest, total, tree_draw};
use vstd::prelude::*;

verus! {

// ---------------------------------------------------------------- slots and cells

proof fn lemma_lane_count(out: Seq<i32>, base: nat, slot_orig: Seq<u32>, n: nat)
    ensures
        lane_pool(out, base, slot_orig, n).len() == held(slot_orig, base as int, (base + n) as int),
    decreases n,
{
    if n > 0 {
        lemma_lane_count(out, base, slot_orig, (n - 1) as nat);
    }
}

/// The candidates that are counted for a list of cells are those that its scan finds.
pub proof fn law_counted_candidates_are_scanned<R: Router, C: Compressor>(ix: &Index<R, C>, ctx: QueryCtx, q: Seq<i8>, data: Seq<i8>, cells: Seq<u32>)
    requires
        ix.main_ok(),
        ix.cells_exist(cells),
    ensures
        occupied(ix.cell_bstart@, ix.slot_orig@, cells) == ix.plain_pool(ctx, q, data, cells).len(),
    decreases cells.len(),
{
    if cells.len() > 0 {
        let rest = cells.drop_last();
        let c = cells.last() as int;
        assert(cells[cells.len() - 1] < ix.nc());
        assert forall|i: int| 0 <= i < rest.len() implies #[trigger] rest[i] < ix.nc() by {
            assert(cells[i] < ix.nc());
        }
        law_counted_candidates_are_scanned(ix, ctx, q, data, rest);
        let b = ix.cell_bstart@;
        assert(b[c] <= b[c + 1]);
        lemma_lane_count(ix.cell_scores(ctx, q, data, c), (16 * b[c]) as nat, ix.slot_orig@, (16 * (b[c + 1] - b[c])) as nat);
    }
}

proof fn lemma_pair_count(bstart: Seq<u32>, slot_orig: Seq<u32>, n: nat)
    ensures
        cell_pairs(bstart, slot_orig, n).len() % 2 == 0,
    decreases n,
{
    if n > 0 {
        lemma_pair_count(bstart, slot_orig, (n - 1) as nat);
        law_every_held_point_is_listed(slot_orig, 16 * bstart[n - 1], 16 * bstart[n as int], (n - 1) as u32);
    }
}

/// Each point that a cell holds is listed with the cell, cell by cell and in the order of the slots.
pub proof fn law_listing_follows_the_cells(bstart: Seq<u32>, slot_orig: Seq<u32>, n: nat, c: int, s: int)
    requires
        0 <= c < n,
        n <= u32::MAX,
        16 * bstart[c] <= s < 16 * bstart[c + 1],
        slot_orig[s] != NO_POINT,
    ensures
        ({
            let at = cell_pairs(bstart, slot_orig, c as nat).len() + 2 * held(slot_orig, 16 * bstart[c], s);
            &&& at % 2 == 0
            &&& at + 1 < cell_pairs(bstart, slot_orig, n).len()
            &&& cell_pairs(bstart, slot_orig, n)[at as int] == slot_orig[s]
            &&& cell_pairs(bstart, slot_orig, n)[at as int + 1] == c
        }),
    decreases n,
{
    let before = cell_pairs(bstart, slot_orig, (n - 1) as nat);
    lemma_pair_count(bstart, slot_orig, c as nat);
    if c < n - 1 {
        law_listing_follows_the_cells(bstart, slot_orig, (n - 1) as nat, c, s);
    } else {
        let (from, to) = (16 * bstart[c], 16 * bstart[c + 1]);
        law_every_held_point_is_listed(slot_orig, from, to, c as u32);
        law_listing_follows_the_slots(slot_orig, from, to, c as u32, s);
        let part = slot_pairs(slot_orig, from, to, c as u32);
        let k = 2 * held(slot_orig, from, s) as int;
        assert(cell_pairs(bstart, slot_orig, n) == before + part);
        assert((before + part)[before.len() + k] == part[k]);
        assert((before + part)[before.len() + k + 1] == part[k + 1]);
    }
}

proof fn lemma_member(assign: Seq<u32>, a0: nat, c: int, n: nat, o: u32)
    requires
        n <= assign.len() <= u32::MAX,
        a0 >= 1,
    ensures
        members(assign, a0, c, n).contains(o) <==> exists|i: int| 0 <= i < n && #[trigger] assign[i] == c && i / a0 as int == o,
    decreases n,
{
    let all = members(assign, a0, c, n);
    if n > 0 {
        let m = n - 1;
        lemma_member(assign, a0, c, m as nat, o);
        let prev = members(assign, a0, c, m as nat);
        assert(0 <= m / a0 as int <= m) by (nonlinear_arith)
            requires
                m >= 0,
                a0 >= 1,
        ;
        if prev.contains(o) {
            let x = choose|x: int| 0 <= x < prev.len() && prev[x] == o;
            assert(all[x] == o);
        }
        if assign[m] == c {
            assert(all[prev.len() as int] == m / a0 as int);
            if all.contains(o) {
                let x = choose|x: int| 0 <= x < all.len() && all[x] == o;
                if x < prev.len() {
                    assert(prev[x] == o);
                } else {
                    assert(assign[m] == c);
                }
            }
        }
    }
}

/// The buckets of an assignment: a cell lists the points with an assignment to it, and no others.
pub proof fn law_buckets_list_the_assigned(b: Buckets, assign: Seq<u32>, a0: nat, nc: nat, c: int, o: u32)
    requires
        b.group(assign, a0, nc),
        assign.len() <= u32::MAX,
        a0 >= 1,
        0 <= c < nc,
    ensures
        b.of(c).contains(o) <==> exists|i: int| 0 <= i < assign.len() && #[trigger] assign[i] == c && i / a0 as int == o,
{
    assert(b.of(c) == members(assign, a0, c, assign.len()));
    lemma_member(assign, a0, c, assign.len(), o);
}

/// In a drawn tree every coarse centroid is one of the drawn fine ones, and a fine cell stands under the
/// coarse cell whose centroid is nearest to its own.
pub proof fn law_fine_cells_stand_under_their_nearest(r: HierRouter, norm: I8Bin<'_>, kf: nat, c0: nat, f2c: Seq<u32>, laid: Buckets, p: int, t: int)
    requires
        drawn_tree(r, norm, kf, c0, f2c, laid),
        laid.group(f2c, 1, c0),
        f2c.len() == kf,
        0 < kf <= u32::MAX,
        0 <= p < c0,
        laid.start@[p] <= t < laid.start@[p + 1] <= kf,
        r.d == norm.d,
    ensures
        r.child@[0]@[p] <= t < r.child@[0]@[p + 1],
        forall|j: int| 0 <= j < c0 ==> l2(r.centroid(1, t), row_of(r.cent@[0]@, r.d as nat, p)) <= l2(r.centroid(1, t), #[trigger] row_of(r.cent@[0]@, r.d as nat, j)),
        exists|x: int| 0 <= x < kf && r.centroid(0, p) == norm.spec_row(#[trigger] tree_draw(x as nat, norm.nb as nat)),
{
    let id = laid.ids@[t];
    lemma_laid_under(f2c, laid, kf, c0, p, t);
    assert(r.child@[0]@ == laid.start@);
    assert(forall|j: int| 0 <= j < c0 ==> l2(r.centroid(1, t), row_of(r.cent@[0]@, r.d as nat, p)) <= l2(r.centroid(1, t), #[trigger] row_of(r.cent@[0]@, r.d as nat, j))) by {
        let row = norm.spec_row(tree_draw(id as nat, norm.nb as nat));
        assert(r.centroid(1, t) == row);
        assert(is_nearest(row, r.cent@[0]@, norm.d as nat, c0, f2c[id as int] as int));
    }
    assert(exists|x: int| 0 <= x < kf && r.centroid(0, p) == norm.spec_row(#[trigger] tree_draw(x as nat, norm.nb as nat))) by {
        let x = tree_draw((kf + p) as nat, kf);
        assert(r.centroid(0, p) == norm.spec_row(tree_draw(x as nat, norm.nb as nat)));
    }
}

/// What is laid out in the stretch of a cell is assigned to it.
proof fn lemma_laid_under(f2c: Seq<u32>, laid: Buckets, kf: nat, c0: nat, p: int, t: int)
    requires
        laid.group(f2c, 1, c0),
        f2c.len() == kf,
        0 < kf <= u32::MAX,
        0 <= p < c0,
        laid.start@[p] <= t < laid.start@[p + 1] <= kf,
    ensures
        laid.ids@[t] < kf,
        f2c[laid.ids@[t] as int] == p,
{
    let id = laid.ids@[t];
    let cell = laid.of(p);
    assert(cell == members(f2c, 1, p, f2c.len()));
    lemma_member(f2c, 1, p, f2c.len(), id);
    lemma_stretch(laid, p, t);
    assert(cell.contains(id));
    let i = choose|i: int| 0 <= i < f2c.len() && #[trigger] f2c[i] == p && i / 1nat as int == id;
    assert(i / 1 == i);
}

proof fn lemma_stretch(laid: Buckets, p: int, t: int)
    requires
        0 <= p,
        laid.start@[p] <= t < laid.start@[p + 1] <= laid.ids@.len(),
    ensures
        laid.of(p).contains(laid.ids@[t]),
{
    let k = t - laid.start@[p];
    assert(laid.of(p)[k] == laid.ids@[t]);
}

// ---------------------------------------------------------------- rows

/// Ranked edges run from the nearest to the farthest, and are the same edges.
pub proof fn law_ranked_edges_fall(edges: Seq<Edge>)
    requires
        distinct(edges),
    ensures
        ranked(edges).len() == edges.len(),
        forall|i: int, j: int| 0 <= i <= j < ranked(edges).len() ==> (#[trigger] ranked(edges)[i]).sim >= (#[trigger] ranked(edges)[j]).sim,
        forall|j: int| 0 <= j < ranked(edges).len() ==> edges.contains(#[trigger] ranked(edges)[j]),
        forall|i: int, j: int| 0 <= i < j < ranked(edges).len() ==> (#[trigger] ranked(edges)[i]).id != (#[trigger] ranked(edges)[j]).id,
{
    lemma_ranked(edges);
    assert(falling(ranked(edges)));
}

/// One reversed edge more to `u`: the list of `u` grows while it has room; after that the edge takes a place
/// drawn among all the edges to `u` that there were, this one counted, and is dropped where that lies beyond
/// the list. No other place and no other list changes.
pub proof fn law_later_edges_take_a_drawn_place(b: Backward, v: int, e: Edge, cap: nat, salt: u64, u: int, t: int)
    requires
        0 <= u < b.lists.len(),
        b.counts.len() == b.lists.len(),
        e.id < b.lists.len(),
        b.lists[u].len() == (if b.counts[u] < cap { b.counts[u] } else { cap }),
    ensures
        ({
            let r = reverse_edge(b, v, e, cap, salt);
            let full = b.counts[u] >= cap;
            let place = drawn(salt ^ ((v as u64) << 32u64) ^ (u as u64)) as int % (b.counts[u] as int + 1);
            &&& u != e.id ==> r.lists[u] == b.lists[u] && r.counts[u] == b.counts[u]
            &&& u == e.id ==> r.counts[u] == b.counts[u] + 1
            &&& u == e.id && !full ==> r.lists[u].len() == b.lists[u].len() + 1 && r.lists[u].last() == tag(v, e)
            &&& u == e.id && full ==> r.lists[u].len() == b.lists[u].len()
            &&& u == e.id && full && place < cap ==> r.lists[u][place] == tag(v, e)
            &&& 0 <= t < b.lists[u].len() && !(u == e.id && full && t == place) ==> r.lists[u][t] == b.lists[u][t]
        }),
{
}

/// The rows of points that were settled before start old, all others new.
pub proof fn law_settled_rows_start_old(v: int, settled: nat, age: u8)
    ensures
        start_age(v, settled, age) == 0 <==> v < settled || age == 0,
        v >= settled ==> start_age(v, settled, age) == age,
{
}

/// A row that is filled up keeps its ids and takes the lowest free ones: a free id that is left out is
/// higher than those that were taken, and the row is full.
pub proof fn law_rows_fill_up_with_the_lowest(row: Seq<u32>, own: u32, n: nat, k: nat)
    requires
        n <= u32::MAX,
    ensures
        ({
            let r = completed(row, own, n, k);
            &&& row.len() <= r.len()
            &&& r.len() <= (if row.len() < k { k } else { row.len() })
            &&& r.take(row.len() as int) == row
            &&& forall|i: int| row.len() <= i < r.len() ==> #[trigger] r[i] < n && r[i] != own && !row.contains(r[i])
            &&& forall|i: int, j: int| row.len() <= i < j < r.len() ==> #[trigger] r[i] < #[trigger] r[j]
            &&& forall|w: u32| w < n && w != own && !#[trigger] r.contains(w) ==> r.len() >= k
            &&& forall|w: u32, i: int| w < n && w != own && !#[trigger] r.contains(w) && row.len() <= i < r.len() ==> #[trigger] r[i] < w
        }),
    decreases n,
{
    let r = completed(row, own, n, k);
    if n == 0 {
        assert(row.take(row.len() as int) =~= row);
    } else {
        let m = (n - 1) as nat;
        law_rows_fill_up_with_the_lowest(row, own, m, k);
        let p = completed(row, own, m, k);
        let x = m as u32;
        if p.len() < k && x != own && !p.contains(x) {
            assert(r == p.push(x));
            assert(r.take(row.len() as int) =~= p.take(row.len() as int));
            assert forall|i: int| row.len() <= i < r.len() implies #[trigger] r[i] < n && r[i] != own && !row.contains(r[i]) by {
                if i < p.len() {
                    assert(r[i] == p[i]);
                } else if row.contains(x) {
                    let z = choose|z: int| 0 <= z < row.len() && row[z] == x;
                    assert(p.take(row.len() as int)[z] == p[z]);
                }
            }
            assert forall|i: int, j: int| row.len() <= i < j < r.len() implies #[trigger] r[i] < #[trigger] r[j] by {
                assert(r[i] == p[i]);
                if j < p.len() {
                    assert(r[j] == p[j]);
                }
            }
            assert forall|w: u32| w < n && w != own && !#[trigger] r.contains(w) implies r.len() >= k && forall|i: int| row.len() <= i < r.len() ==> #[trigger] r[i] < w by {
                assert(r[p.len() as int] == x);
                if p.contains(w) {
                    let z = choose|z: int| 0 <= z < p.len() && p[z] == w;
                    assert(r[z] == w);
                }
            }
        } else {
            assert(r == p);
            assert forall|w: u32| w < n && w != own && !#[trigger] r.contains(w) implies r.len() >= k && forall|i: int| row.len() <= i < r.len() ==> #[trigger] r[i] < w by {
                if w == x {
                    assert forall|i: int| row.len() <= i < r.len() implies #[trigger] r[i] < w by {
                        assert(p[i] < m);
                    }
                }
            }
        }
    }
}

/// Point `w` has an edge to `v` among rows of `r` edges.
pub open spec fn leads_to(out: Seq<u32>, r: nat, w: u32, v: int) -> bool {
    exists|e: int| 0 <= e < out.len() && #[trigger] out[e] == v && e / r as int == w
}

/// The second pass offers a point its own edges, and behind them the points with an edge to it in rising
/// order, `cap` of them where there are more: a point with an edge to it that is not offered is no lower
/// than those that are.
pub proof fn law_second_pass_takes_the_lowest_sources(out: Seq<u32>, r: nat, v: int, cap: nat)
    requires
        r >= 1,
        0 <= v,
        (v + 1) * r <= out.len(),
        out.len() <= u32::MAX,
    ensures
        ({
            let all = two_way(out, r, v, cap);
            &&& r <= all.len() <= r + cap
            &&& forall|i: int| 0 <= i < r ==> #[trigger] all[i] == out[v * r + i]
            &&& forall|i: int| r <= i < all.len() ==> leads_to(out, r, #[trigger] all[i], v)
            &&& forall|i: int, j: int| r <= i <= j < all.len() ==> #[trigger] all[i] <= #[trigger] all[j]
            &&& forall|e: int, i: int| 0 <= e < out.len() && #[trigger] out[e] == v && r <= i < all.len() && !all.skip(r as int).contains((e / r as int) as u32) ==> all.len() == r + cap && #[trigger] all[i] <= e / r as int
            &&& forall|e: int| 0 <= e < out.len() && #[trigger] out[e] == v && all.len() < r + cap ==> all.skip(r as int).contains((e / r as int) as u32)
        }),
{
    let all = two_way(out, r, v, cap);
    let into = members(out, r, v, out.len());
    let own = row_in(out, r, v);
    let taken = if into.len() > cap {
        into.take(cap as int)
    } else {
        into
    };
    assert(0 <= v * r && v * r + r == (v + 1) * r) by (nonlinear_arith)
        requires
            0 <= v,
            r >= 1,
    ;
    assert(own.len() == r);
    assert(all == own + taken);
    assert(all.skip(r as int) =~= taken);
    assert forall|i: int| 0 <= i < r implies #[trigger] all[i] == out[v * r + i] by {
        assert(all[i] == own[i]);
    }
    lemma_members_rise(out, r, v, out.len());
    assert forall|i: int| r <= i < all.len() implies leads_to(out, r, #[trigger] all[i], v) by {
        assert(all[i] == into[i - r]);
        assert(into.contains(into[i - r]));
        lemma_member(out, r, v, out.len(), into[i - r]);
    }
    assert forall|i: int, j: int| r <= i <= j < all.len() implies #[trigger] all[i] <= #[trigger] all[j] by {
        assert(all[i] == into[i - r] && all[j] == into[j - r]);
    }
    assert forall|e: int| 0 <= e < out.len() && #[trigger] out[e] == v implies into.contains((e / r as int) as u32) && 0 <= e / r as int <= e by {
        assert(0 <= e / r as int <= e) by (nonlinear_arith)
            requires
                e >= 0,
                r >= 1,
        ;
        lemma_member(out, r, v, out.len(), (e / r as int) as u32);
    }
    assert forall|e: int, i: int| 0 <= e < out.len() && #[trigger] out[e] == v && r <= i < all.len() && !all.skip(r as int).contains((e / r as int) as u32) implies all.len() == r + cap && #[trigger] all[i] <= e / r as int by {
        let w = (e / r as int) as u32;
        let x = choose|x: int| 0 <= x < into.len() && into[x] == w;
        if x < taken.len() {
            assert(taken[x] == w);
        }
        assert(all[i] == into[i - r]);
        assert(into[i - r] <= into[x]);
    }
    assert forall|e: int| 0 <= e < out.len() && #[trigger] out[e] == v && all.len() < r + cap implies all.skip(r as int).contains((e / r as int) as u32) by {
        assert(taken == into);
    }
}

// ---------------------------------------------------------------- plans

/// The choices from some lists are all rows with one entry of each list.
pub proof fn law_choices_are_all_combinations(lists: Seq<Seq<usize>>, row: Seq<usize>)
    ensures
        choices(lists).contains(row) <==> row.len() == lists.len() && forall|i: int| 0 <= i < lists.len() ==> (#[trigger] lists[i]).contains(row[i]),
    decreases lists.len(),
{
    let all = choices(lists);
    if lists.len() == 0 {
        assert(all[0] == Seq::<usize>::empty());
        if row.len() == 0 {
            assert(row =~= all[0]);
        }
    } else {
        let head = lists.drop_last();
        let b = lists.last();
        let a = choices(head);
        let n = b.len() as int;
        if all.contains(row) {
            let x = choose|x: int| 0 <= x < all.len() && all[x] == row;
            lemma_place(x, a.len() as int, n);
            let first = a[x / n];
            assert(row == first.push(b[x % n]));
            assert(a.contains(first));
            law_choices_are_all_combinations(head, first);
            assert forall|i: int| 0 <= i < lists.len() implies (#[trigger] lists[i]).contains(row[i]) by {
                if i < head.len() {
                    assert(head[i].contains(first[i]));
                    assert(lists[i] == head[i] && row[i] == first[i]);
                } else {
                    assert(b[x % n] == row[i]);
                }
            }
        }
        if row.len() == lists.len() && forall|i: int| 0 <= i < lists.len() ==> (#[trigger] lists[i]).contains(row[i]) {
            let first = row.drop_last();
            assert forall|i: int| 0 <= i < head.len() implies (#[trigger] head[i]).contains(first[i]) by {
                assert(lists[i].contains(row[i]));
            }
            law_choices_are_all_combinations(head, first);
            let y = choose|y: int| 0 <= y < a.len() && a[y] == first;
            assert(lists[lists.len() - 1].contains(row[lists.len() - 1]));
            let z = choose|z: int| 0 <= z < b.len() && b[z] == row.last();
            let k = y * n + z;
            assert(0 <= k < a.len() * n) by (nonlinear_arith)
                requires
                    0 <= y < a.len(),
                    0 <= z < n,
                    k == y * n + z,
            ;
            vstd::arithmetic::div_mod::lemma_fundamental_div_mod_converse(k, n, y, z);
            assert(all[k] == a[y].push(b[z]));
            assert(all[k] =~= row);
        }
    }
}

proof fn lemma_place(x: int, rows: int, n: int)
    requires
        0 <= x < rows * n,
        n >= 0,
        rows >= 0,
    ensures
        0 <= x / n < rows,
        0 <= x % n < n,
{
    assert(n > 0) by (nonlinear_arith)
        requires
            0 <= x < rows * n,
            n >= 0,
    ;
    vstd::arithmetic::div_mod::lemma_fundamental_div_mod(x, n);
    assert(0 <= x / n < rows) by (nonlinear_arith)
        requires
            x == n * (x / n) + x % n,
            0 <= x < rows * n,
            0 <= x % n < n,
            n > 0,
    ;
}

/// How many choices there are: one for each entry of the last list and choice from the others.
pub proof fn law_choices_multiply(lists: Seq<Seq<usize>>, last: Seq<usize>)
    ensures
        choices(Seq::empty()).len() == 1,
        choices(lists.push(last)).len() == choices(lists).len() * last.len(),
{
    assert(lists.push(last).drop_last() =~= lists);
}

/// The list of numbers in a text holds the number of each piece that spells one of at least the bound.
pub proof fn law_number_lists_hold_every_number(s: Seq<char>, sep: char, least: usize, v: usize)
    ensures
        number_list(s, sep, least).contains(v) <==> v >= least && exists|i: int| 0 <= i < pieces(s, sep).len() && number(trimmed(#[trigger] pieces(s, sep)[i])) == Some(v),
{
    lemma_numbers(pieces(s, sep), least, v);
}

proof fn lemma_numbers(ps: Seq<Seq<char>>, least: usize, v: usize)
    ensures
        numbers_in(ps, least).contains(v) <==> v >= least && exists|i: int| 0 <= i < ps.len() && number(trimmed(#[trigger] ps[i])) == Some(v),
    decreases ps.len(),
{
    let all = numbers_in(ps, least);
    if ps.len() > 0 {
        let head = ps.drop_last();
        let m = head.len() as int;
        lemma_numbers(head, least, v);
        let prev = numbers_in(head, least);
        if prev.contains(v) {
            let x = choose|x: int| 0 <= x < prev.len() && prev[x] == v;
            assert(all[x] == v);
            let i = choose|i: int| 0 <= i < head.len() && number(trimmed(#[trigger] head[i])) == Some(v);
            assert(ps[i] == head[i]);
        }
        assert(ps.last() == ps[m]);
        if number(trimmed(ps[m])) == Some(v) && v >= least {
            assert(all[prev.len() as int] == v);
        }
        if all.contains(v) {
            let x = choose|x: int| 0 <= x < all.len() && all[x] == v;
            if x < prev.len() {
                assert(prev[x] == v);
            } else {
                assert(number(trimmed(ps[m])) == Some(v));
            }
        }
        if exists|i: int| 0 <= i < ps.len() && number(trimmed(#[trigger] ps[i])) == Some(v) {
            let i = choose|i: int| 0 <= i < ps.len() && number(trimmed(#[trigger] ps[i])) == Some(v);
            if i < m {
                assert(head[i] == ps[i]);
            }
        }
    }
}

/// A sum of counts grows by each count that is added.
pub proof fn law_totals_add_up(counts: Seq<usize>, x: usize)
    ensures
        total(Seq::empty()) == 0,
        total(counts.push(x)) == total(counts) + x,
{
    assert(counts.push(x).drop_last() =~= counts);
}

} // verus!
