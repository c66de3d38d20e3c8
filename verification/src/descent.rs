//! The rounds of the neighbour graph: which points a row is joined with, and what it gains.
use vstd::prelude::*;
use vstd::slice::slice_subrange;
use crate::ibin::I8Bin;
use crate::knn::{
    aged, edge_at, entered, falling, first_row, ids_in, ids_ok, improved, lemma_reverse_rows, lemma_set_in, lemma_set_in_falls,
    offer_edge, offered, place_of, proper_row, rank_row, ranked, reverse, reverse_rows, round_salt, rows_of, scored, sim, start_row,
    untag, Edge, Reversed, NEW_MARK, SPREAD,
};
use crate::simd::dim_limit;

verus! {

/// How many candidates a join takes in at most, less what one neighbour can bring.
pub const JOIN_LIMIT: usize = 8192;

/// A graph of near neighbours: `k` edges for each point, from the nearest to the farthest.
pub struct KnnGraph {
    pub k: usize,
    pub rows: Vec<Vec<Edge>>,
}

/// Seed ids of row `v`.
pub open spec fn seed_row(seeds: Seq<u32>, ks: nat, v: int) -> Seq<u32> {
    seeds.subrange(v * ks, v * ks + ks)
}

/// A row of edges of point `v`: `k` distinct other points, nearest first, each as near as it says.
pub open spec fn row_ok(data: I8Bin<'_>, l2: bool, k: nat, v: int, row: Seq<Edge>) -> bool {
    &&& row.len() == k
    &&& falling(row)
    &&& proper_row(ids_in(row), v as u32, data.nb as nat)
    &&& forall|j: int| 0 <= j < row.len() ==> (#[trigger] row[j]).sim == sim(l2, data.spec_row(v), data.spec_row(row[j].id as int))
}

impl KnnGraph {
    /// Every row is a row of its point.
    pub open spec fn wf(&self, data: I8Bin<'_>, l2: bool) -> bool {
        &&& self.rows@.len() == data.nb
        &&& forall|v: int| 0 <= v < data.nb ==> row_ok(data, l2, self.k as nat, v, #[trigger] self.rows@[v]@)
    }

    /// The rows as sequences.
    pub open spec fn model(&self) -> Seq<Seq<Edge>> {
        rows_of(self.rows@)
    }
}

// ---------------------------------------------------------------- the join

/// True where `w` is already known to the join of point `v`.
pub open spec fn known(v: u32, row: Seq<Edge>, cand: Seq<u32>, w: u32) -> bool {
    w == v || ids_in(row).contains(w) || cand.contains(w)
}

/// The candidates after point `w` was met.
pub open spec fn met(v: u32, row: Seq<Edge>, cand: Seq<u32>, w: u32) -> Seq<u32> {
    if known(v, row, cand, w) {
        cand
    } else {
        cand.push(w)
    }
}

/// The candidates after the first `t` edges of another point's row: through a new edge all of them
/// are met, through an old one only the new ones.
pub open spec fn over_row(v: u32, row: Seq<Edge>, cand: Seq<u32>, other: Seq<Edge>, new: bool, t: nat) -> Seq<u32>
    decreases t,
{
    if t == 0 {
        cand
    } else {
        let before = over_row(v, row, cand, other, new, (t - 1) as nat);
        let e = other[t - 1];
        if new || e.fresh > 0 {
            met(v, row, before, e.id)
        } else {
            before
        }
    }
}

/// The candidates after the first `t` names of another point's reversed list.
pub open spec fn over_list(v: u32, row: Seq<Edge>, cand: Seq<u32>, list: Seq<u32>, new: bool, t: nat) -> Seq<u32>
    decreases t,
{
    if t == 0 {
        cand
    } else {
        let before = over_list(v, row, cand, list, new, (t - 1) as nat);
        let name = list[t - 1];
        if new || name >= NEW_MARK {
            met(v, row, before, untag(name))
        } else {
            before
        }
    }
}

/// The candidates after the neighbours of point `u` in both directions.
pub open spec fn across(v: u32, row: Seq<Edge>, cand: Seq<u32>, rows: Seq<Seq<Edge>>, lists: Seq<Seq<u32>>, u: int, new: bool) -> Seq<u32> {
    let a = over_row(v, row, cand, rows[u], new, rows[u].len());
    over_list(v, row, a, lists[u], new, lists[u].len())
}

/// True where no further neighbour is joined.
pub open spec fn crowded(cand: Seq<u32>, k: nat, cap: nat) -> bool {
    cand.len() + 2 * (k + cap) > JOIN_LIMIT
}

/// The candidates after the first `j` neighbours of point `v`.
pub open spec fn through_row(v: int, rows: Seq<Seq<Edge>>, lists: Seq<Seq<u32>>, k: nat, cap: nat, j: nat) -> Seq<u32>
    decreases j,
{
    if j == 0 {
        Seq::empty()
    } else {
        let before = through_row(v, rows, lists, k, cap, (j - 1) as nat);
        if crowded(before, k, cap) {
            before
        } else {
            let e = rows[v][j - 1];
            across(v as u32, rows[v], before, rows, lists, e.id as int, e.fresh > 0)
        }
    }
}

/// The candidates after all neighbours of point `v` and the first `j` names of its reversed list; the
/// named points are met themselves.
pub open spec fn through_list(v: int, rows: Seq<Seq<Edge>>, lists: Seq<Seq<u32>>, k: nat, cap: nat, j: nat) -> Seq<u32>
    decreases j,
{
    if j == 0 {
        through_row(v, rows, lists, k, cap, rows[v].len())
    } else {
        let before = through_list(v, rows, lists, k, cap, (j - 1) as nat);
        if crowded(before, k, cap) {
            before
        } else {
            let name = lists[v][j - 1];
            let u = untag(name);
            across(v as u32, rows[v], met(v as u32, rows[v], before, u), rows, lists, u as int, name >= NEW_MARK)
        }
    }
}

/// The points that the row of point `v` is joined with.
pub open spec fn candidates(v: int, rows: Seq<Seq<Edge>>, lists: Seq<Seq<u32>>, k: nat, cap: nat) -> Seq<u32> {
    through_list(v, rows, lists, k, cap, lists[v].len())
}

/// The row of point `v` after a round.
pub open spec fn next_row(data: I8Bin<'_>, l2: bool, v: int, rows: Seq<Seq<Edge>>, lists: Seq<Seq<u32>>, k: nat, cap: nat, age: u8) -> Seq<Edge> {
    improved(aged(rows[v]), scored(data, l2, v, candidates(v, rows, lists, k, cap), age))
}

/// How many edges the first `n` rows gain in a round.
pub open spec fn gained(data: I8Bin<'_>, l2: bool, n: nat, rows: Seq<Seq<Edge>>, lists: Seq<Seq<u32>>, k: nat, cap: nat, age: u8) -> nat
    decreases n,
{
    if n == 0 {
        0
    } else {
        let v = n - 1;
        gained(data, l2, v as nat, rows, lists, k, cap, age) + entered(aged(rows[v]), scored(data, l2, v, candidates(v, rows, lists, k, cap), age))
    }
}

/// Candidates are distinct points, none of them the point or one of its neighbours.
pub open spec fn fresh_points(v: u32, row: Seq<Edge>, cand: Seq<u32>, n: nat) -> bool {
    &&& cand.no_duplicates()
    &&& forall|i: int| 0 <= i < cand.len() ==> #[trigger] cand[i] < n && cand[i] != v && !ids_in(row).contains(cand[i])
}

proof fn lemma_met(v: u32, row: Seq<Edge>, cand: Seq<u32>, w: u32, n: nat)
    requires
        fresh_points(v, row, cand, n),
        w < n,
    ensures
        fresh_points(v, row, met(v, row, cand, w), n),
{
    let after = met(v, row, cand, w);
    if !known(v, row, cand, w) {
        assert forall|i: int| 0 <= i < after.len() implies #[trigger] after[i] < n && after[i] != v && !ids_in(row).contains(after[i]) by {
            if i < cand.len() {
                assert(after[i] == cand[i]);
            }
        }
        assert forall|i: int, j: int| 0 <= i < after.len() && 0 <= j < after.len() && i != j implies after[i] != after[j] by {
            if i == cand.len() {
                assert(cand.contains(cand[j]));
            }
            if j == cand.len() {
                assert(cand.contains(cand[i]));
            }
        }
    }
}

proof fn lemma_over_row(v: u32, row: Seq<Edge>, cand: Seq<u32>, other: Seq<Edge>, new: bool, t: nat, n: nat)
    requires
        fresh_points(v, row, cand, n),
        t <= other.len(),
        forall|i: int| 0 <= i < other.len() ==> (#[trigger] other[i]).id < n,
    ensures
        fresh_points(v, row, over_row(v, row, cand, other, new, t), n),
        over_row(v, row, cand, other, new, t).len() <= cand.len() + t,
    decreases t,
{
    if t > 0 {
        lemma_over_row(v, row, cand, other, new, (t - 1) as nat, n);
        lemma_met(v, row, over_row(v, row, cand, other, new, (t - 1) as nat), other[t - 1].id, n);
    }
}

proof fn lemma_over_list(v: u32, row: Seq<Edge>, cand: Seq<u32>, list: Seq<u32>, new: bool, t: nat, n: nat)
    requires
        fresh_points(v, row, cand, n),
        t <= list.len(),
        forall|i: int| 0 <= i < list.len() ==> untag(#[trigger] list[i]) < n,
    ensures
        fresh_points(v, row, over_list(v, row, cand, list, new, t), n),
        over_list(v, row, cand, list, new, t).len() <= cand.len() + t,
    decreases t,
{
    if t > 0 {
        lemma_over_list(v, row, cand, list, new, (t - 1) as nat, n);
        lemma_met(v, row, over_list(v, row, cand, list, new, (t - 1) as nat), untag(list[t - 1]), n);
    }
}

/// Every row has `k` edges and every list at most `cap` names, all of points that exist.
pub open spec fn join_ok(rows: Seq<Seq<Edge>>, lists: Seq<Seq<u32>>, k: nat, cap: nat) -> bool {
    &&& rows.len() == lists.len()
    &&& ids_ok(rows)
    &&& forall|v: int| 0 <= v < rows.len() ==> (#[trigger] rows[v]).len() == k
    &&& forall|v: int| 0 <= v < rows.len() ==> (#[trigger] lists[v]).len() <= cap
    &&& forall|v: int, t: int| 0 <= v < lists.len() && 0 <= t < lists[v].len() ==> untag(#[trigger] lists[v][t]) < rows.len()
}

proof fn lemma_across(v: u32, row: Seq<Edge>, cand: Seq<u32>, rows: Seq<Seq<Edge>>, lists: Seq<Seq<u32>>, u: int, new: bool, k: nat, cap: nat)
    requires
        join_ok(rows, lists, k, cap),
        0 <= u < rows.len(),
        fresh_points(v, row, cand, rows.len()),
    ensures
        fresh_points(v, row, across(v, row, cand, rows, lists, u, new), rows.len()),
        across(v, row, cand, rows, lists, u, new).len() <= cand.len() + k + cap,
{
    assert forall|i: int| 0 <= i < rows[u].len() implies (#[trigger] rows[u][i]).id < rows.len() by {
        assert(edge_at(rows, u, i));
    }
    assert forall|i: int| 0 <= i < lists[u].len() implies untag(#[trigger] lists[u][i]) < rows.len() by {
    }
    lemma_over_row(v, row, cand, rows[u], new, rows[u].len(), rows.len());
    let a = over_row(v, row, cand, rows[u], new, rows[u].len());
    lemma_over_list(v, row, a, lists[u], new, lists[u].len(), rows.len());
}

pub proof fn lemma_through_row(v: int, rows: Seq<Seq<Edge>>, lists: Seq<Seq<u32>>, k: nat, cap: nat, j: nat)
    requires
        join_ok(rows, lists, k, cap),
        0 <= v < rows.len(),
        rows.len() <= u32::MAX,
        j <= k,
    ensures
        fresh_points(v as u32, rows[v], through_row(v, rows, lists, k, cap, j), rows.len()),
    decreases j,
{
    if j > 0 {
        lemma_through_row(v, rows, lists, k, cap, (j - 1) as nat);
        let before = through_row(v, rows, lists, k, cap, (j - 1) as nat);
        assert(edge_at(rows, v, j - 1));
        let e = rows[v][j - 1];
        lemma_across(v as u32, rows[v], before, rows, lists, e.id as int, e.fresh > 0, k, cap);
    }
}

pub proof fn lemma_through_list(v: int, rows: Seq<Seq<Edge>>, lists: Seq<Seq<u32>>, k: nat, cap: nat, j: nat)
    requires
        join_ok(rows, lists, k, cap),
        0 <= v < rows.len(),
        rows.len() <= u32::MAX,
        j <= lists[v].len(),
    ensures
        fresh_points(v as u32, rows[v], through_list(v, rows, lists, k, cap, j), rows.len()),
    decreases j,
{
    if j == 0 {
        lemma_through_row(v, rows, lists, k, cap, k);
    } else {
        lemma_through_list(v, rows, lists, k, cap, (j - 1) as nat);
        let before = through_list(v, rows, lists, k, cap, (j - 1) as nat);
        let name = lists[v][j - 1];
        let u = untag(name);
        lemma_met(v as u32, rows[v], before, u, rows.len());
        lemma_across(v as u32, rows[v], met(v as u32, rows[v], before, u), rows, lists, u as int, name >= NEW_MARK, k, cap);
    }
}

/// Join a point into the candidates of point `v`; `marks` remembers with the stamp of `v` which
/// points are known to its join.
fn meet(marks: &mut Vec<u32>, stamp: u32, v: Ghost<u32>, row: Ghost<Seq<Edge>>, cand: &mut Vec<u32>, w: u32)
    requires
        w < old(marks)@.len(),
        old(marks)@.len() <= u32::MAX,
        marked(old(marks)@, stamp, v@, row@, old(cand)@),
    ensures
        final(cand)@ == met(v@, row@, old(cand)@, w),
        final(marks)@.len() == old(marks)@.len(),
        marked(final(marks)@, stamp, v@, row@, final(cand)@),
        forall|x: int| 0 <= x < old(marks)@.len() ==> #[trigger] final(marks)@[x] == old(marks)@[x] || final(marks)@[x] == stamp,
{
    if marks[w as usize] != stamp {
        let ghost before = cand@;
        assert(!marked_at(marks@, stamp, w));
        marks.set(w as usize, stamp);
        cand.push(w);
        proof {
            assert forall|x: u32| x < marks@.len() implies #[trigger] marked_at(marks@, stamp, x) == known(v@, row@, cand@, x) by {
                if x == w {
                    assert(cand@[before.len() as int] == w);
                } else {
                    assert(marked_at(old(marks)@, stamp, x) == known(v@, row@, before, x));
                    if before.contains(x) {
                        let i = choose|i: int| 0 <= i < before.len() && before[i] == x;
                        assert(cand@[i] == x);
                    }
                    if cand@.contains(x) {
                        let i = choose|i: int| 0 <= i < cand@.len() && cand@[i] == x;
                        assert(before[i] == x);
                    }
                }
            }
        }
    } else {
        assert(marked_at(marks@, stamp, w));
    }
}

/// Point `x` carries the stamp.
pub open spec fn marked_at(marks: Seq<u32>, stamp: u32, x: u32) -> bool {
    marks[x as int] == stamp
}

/// The marks carry the stamp exactly where the point is known to the join.
pub open spec fn marked(marks: Seq<u32>, stamp: u32, v: u32, row: Seq<Edge>, cand: Seq<u32>) -> bool {
    forall|x: u32| x < marks.len() ==> #[trigger] marked_at(marks, stamp, x) == known(v, row, cand, x)
}

/// The lists of reversed edges as sequences.
pub open spec fn lists_of(lists: Seq<Vec<u32>>) -> Seq<Seq<u32>> {
    Seq::new(lists.len(), |i: int| lists[i]@)
}

/// Meet the neighbours of point `u` in both directions.
fn bridge(rows: &Vec<Vec<Edge>>, lists: &Vec<Vec<u32>>, u: usize, new: bool, marks: &mut Vec<u32>, stamp: u32, v: Ghost<u32>, row: Ghost<Seq<Edge>>, k: Ghost<nat>, cap: Ghost<nat>, cand: &mut Vec<u32>)
    requires
        join_ok(rows_of(rows@), lists_of(lists@), k@, cap@),
        u < rows@.len(),
        rows@.len() <= u32::MAX,
        old(marks)@.len() == rows@.len(),
        marked(old(marks)@, stamp, v@, row@, old(cand)@),
        forall|x: int| 0 <= x < old(marks)@.len() ==> #[trigger] old(marks)@[x] <= stamp,
    ensures
        final(cand)@ == across(v@, row@, old(cand)@, rows_of(rows@), lists_of(lists@), u as int, new),
        final(marks)@.len() == old(marks)@.len(),
        marked(final(marks)@, stamp, v@, row@, final(cand)@),
        forall|x: int| 0 <= x < old(marks)@.len() ==> #[trigger] final(marks)@[x] <= stamp,
{
    let ghost all = rows_of(rows@);
    let ghost back = lists_of(lists@);
    let ghost start = cand@;
    let ghost vv = v@;
    let ghost rr = row@;
    let n: usize = rows[u].len();
    let mut t: usize = 0;
    while t < n
        invariant
            t <= n,
            u < rows@.len(),
            n == rows@[u as int]@.len(),
            all == rows_of(rows@),
            ids_ok(all),
            rows@.len() <= u32::MAX,
            marks@.len() == rows@.len(),
            vv == v@,
            rr == row@,
            cand@ == over_row(vv, rr, start, all[u as int], new, t as nat),
            marked(marks@, stamp, vv, rr, cand@),
            forall|x: int| 0 <= x < marks@.len() ==> #[trigger] marks@[x] <= stamp,
        decreases n - t,
    {
        let e: Edge = rows[u][t];
        assert(edge_at(all, u as int, t as int));
        assert(e == all[u as int][t as int]);
        if new || e.fresh > 0 {
            meet(marks, stamp, v, row, cand, e.id);
        }
        t = t + 1;
    }
    let ghost mid = cand@;
    let m: usize = lists[u].len();
    let mut t: usize = 0;
    while t < m
        invariant
            t <= m,
            u < rows@.len(),
            lists@.len() == rows@.len(),
            m == lists@[u as int]@.len(),
            back == lists_of(lists@),
            all == rows_of(rows@),
            join_ok(all, back, k@, cap@),
            rows@.len() <= u32::MAX,
            marks@.len() == rows@.len(),
            vv == v@,
            rr == row@,
            cand@ == over_list(vv, rr, mid, back[u as int], new, t as nat),
            marked(marks@, stamp, vv, rr, cand@),
            forall|x: int| 0 <= x < marks@.len() ==> #[trigger] marks@[x] <= stamp,
        decreases m - t,
    {
        let name: u32 = lists[u][t];
        assert(name == back[u as int][t as int]);
        assert(untag(back[u as int][t as int]) < all.len());
        if new || name >= NEW_MARK {
            meet(marks, stamp, v, row, cand, name % NEW_MARK);
        }
        t = t + 1;
    }
}

/// Stamp the point and its neighbours.
fn stamp_row(rows: &Vec<Vec<Edge>>, v: usize, marks: &mut Vec<u32>, stamp: u32)
    requires
        ids_ok(rows_of(rows@)),
        v < rows@.len(),
        rows@.len() <= u32::MAX,
        old(marks)@.len() == rows@.len(),
        forall|x: int| 0 <= x < old(marks)@.len() ==> #[trigger] old(marks)@[x] < stamp,
    ensures
        final(marks)@.len() == old(marks)@.len(),
        marked(final(marks)@, stamp, v as u32, rows@[v as int]@, Seq::empty()),
        forall|x: int| 0 <= x < old(marks)@.len() ==> #[trigger] final(marks)@[x] <= stamp,
{
    let ghost all = rows_of(rows@);
    let ghost row = rows@[v as int]@;
    marks.set(v, stamp);
    let n: usize = rows[v].len();
    let mut j: usize = 0;
    while j < n
        invariant
            j <= n,
            v < rows@.len(),
            row == rows@[v as int]@,
            n == row.len(),
            all == rows_of(rows@),
            ids_ok(all),
            marks@.len() == rows@.len(),
            forall|x: int| 0 <= x < marks@.len() ==> #[trigger] marks@[x] <= stamp,
            forall|x: int| 0 <= x < marks@.len() ==> ((#[trigger] marks@[x]) == stamp <==> (x == v || exists|i: int| 0 <= i < j && (#[trigger] row[i]).id == x)),
        decreases n - j,
    {
        let e: Edge = rows[v][j];
        assert(edge_at(all, v as int, j as int));
        assert(e == all[v as int][j as int]);
        let ghost before = marks@;
        marks.set(e.id as usize, stamp);
        proof {
            assert forall|x: int| 0 <= x < marks@.len() implies ((#[trigger] marks@[x]) == stamp <==> (x == v || exists|i: int| 0 <= i < j + 1 && (#[trigger] row[i]).id == x)) by {
                assert(before[x] == stamp <==> (x == v || exists|i: int| 0 <= i < j && (#[trigger] row[i]).id == x));
                if x == e.id {
                    assert(row[j as int].id == x);
                } else if exists|i: int| 0 <= i < j + 1 && (#[trigger] row[i]).id == x {
                    let i = choose|i: int| 0 <= i < j + 1 && (#[trigger] row[i]).id == x;
                    assert(i < j);
                }
            }
        }
        j = j + 1;
    }
    proof {
        let none = Seq::<u32>::empty();
        assert forall|x: u32| x < marks@.len() implies #[trigger] marked_at(marks@, stamp, x) == known(v as u32, row, none, x) by {
            let y = x as int;
            assert(marks@[y] == stamp <==> (y == v || exists|i: int| 0 <= i < n && (#[trigger] row[i]).id == y));
            if ids_in(row).contains(x) {
                let i = choose|i: int| 0 <= i < ids_in(row).len() && ids_in(row)[i] == x;
                assert(row[i].id == y);
            }
            if exists|i: int| 0 <= i < n && (#[trigger] row[i]).id == y {
                let i = choose|i: int| 0 <= i < n && (#[trigger] row[i]).id == y;
                assert(ids_in(row)[i] == x);
            }
        }
    }
}

/// The points that the row of point `v` is joined with.
fn join(rows: &Vec<Vec<Edge>>, lists: &Vec<Vec<u32>>, v: usize, k: usize, cap: usize, marks: &mut Vec<u32>) -> (cand: Vec<u32>)
    requires
        join_ok(rows_of(rows@), lists_of(lists@), k as nat, cap as nat),
        v < rows@.len(),
        rows@.len() < NEW_MARK,
        k <= 128,
        cap <= 128,
        old(marks)@.len() == rows@.len(),
        forall|x: int| 0 <= x < old(marks)@.len() ==> #[trigger] old(marks)@[x] <= v,
    ensures
        cand@ == candidates(v as int, rows_of(rows@), lists_of(lists@), k as nat, cap as nat),
        cand@.len() <= JOIN_LIMIT + 1,
        final(marks)@.len() == old(marks)@.len(),
        forall|x: int| 0 <= x < old(marks)@.len() ==> #[trigger] final(marks)@[x] <= v + 1,
{
    let ghost all = rows_of(rows@);
    let ghost back = lists_of(lists@);
    let ghost row = rows@[v as int]@;
    let ghost vv = v as u32;
    let ghost kk = k as nat;
    let ghost cc = cap as nat;
    let stamp: u32 = v as u32 + 1;
    stamp_row(rows, v, marks, stamp);
    let mut cand: Vec<u32> = Vec::new();
    let mut j: usize = 0;
    assert(row == all[v as int]);
    assert(cand@ =~= Seq::<u32>::empty());
    while j < k && cand.len() + 2 * (k + cap) <= JOIN_LIMIT
        invariant
            j <= k,
            k <= 128,
            cap <= 128,
            kk == k,
            cc == cap,
            v < rows@.len(),
            rows@.len() < NEW_MARK,
            all == rows_of(rows@),
            back == lists_of(lists@),
            join_ok(all, back, kk, cc),
            row == rows@[v as int]@,
            row == all[v as int],
            vv == v as u32,
            stamp == v + 1,
            marks@.len() == rows@.len(),
            cand@ == through_row(v as int, all, back, kk, cc, j as nat),
            marked(marks@, stamp, vv, row, cand@),
            forall|x: int| 0 <= x < marks@.len() ==> #[trigger] marks@[x] <= stamp,
            cand@.len() <= JOIN_LIMIT + 1,
        decreases k - j,
    {
        assert(all[v as int].len() == k);
        assert(edge_at(all, v as int, j as int));
        let e: Edge = rows[v][j];
        assert(e == all[v as int][j as int]);
        let ghost before = cand@;
        bridge(rows, lists, e.id as usize, e.fresh > 0, marks, stamp, Ghost(vv), Ghost(row), Ghost(kk), Ghost(cc), &mut cand);
        proof {
            lemma_through_row(v as int, all, back, kk, cc, j as nat);
            lemma_across(vv, row, before, all, back, e.id as int, e.fresh > 0, kk, cc);
        }
        j = j + 1;
    }
    proof {
        lemma_crowded_row(v as int, all, back, kk, cc, j as nat, kk);
        assert(cand@ == through_row(v as int, all, back, kk, cc, kk));
        assert(all[v as int].len() == k);
    }
    let m: usize = lists[v].len();
    let mut j: usize = 0;
    while j < m && cand.len() + 2 * (k + cap) <= JOIN_LIMIT
        invariant
            j <= m,
            v < rows@.len(),
            m == lists@[v as int]@.len(),
            k <= 128,
            cap <= 128,
            kk == k,
            cc == cap,
            rows@.len() < NEW_MARK,
            all == rows_of(rows@),
            back == lists_of(lists@),
            join_ok(all, back, kk, cc),
            row == rows@[v as int]@,
            row == all[v as int],
            vv == v as u32,
            stamp == v + 1,
            marks@.len() == rows@.len(),
            lists@.len() == rows@.len(),
            cand@ == through_list(v as int, all, back, kk, cc, j as nat),
            marked(marks@, stamp, vv, row, cand@),
            forall|x: int| 0 <= x < marks@.len() ==> #[trigger] marks@[x] <= stamp,
            cand@.len() <= JOIN_LIMIT + 1,
        decreases m - j,
    {
        let name: u32 = lists[v][j];
        assert(name == back[v as int][j as int]);
        assert(untag(back[v as int][j as int]) < all.len());
        let u: u32 = name % NEW_MARK;
        let ghost before = cand@;
        meet(marks, stamp, Ghost(vv), Ghost(row), &mut cand, u);
        let ghost mid = cand@;
        proof {
            assert forall|x: int| 0 <= x < marks@.len() implies #[trigger] marks@[x] <= stamp by {
            }
        }
        bridge(rows, lists, u as usize, name >= NEW_MARK, marks, stamp, Ghost(vv), Ghost(row), Ghost(kk), Ghost(cc), &mut cand);
        proof {
            lemma_through_list(v as int, all, back, kk, cc, j as nat);
            lemma_met(vv, row, before, u, all.len());
            lemma_across(vv, row, mid, all, back, u as int, name >= NEW_MARK, kk, cc);
        }
        j = j + 1;
    }
    proof {
        lemma_crowded_list(v as int, all, back, kk, cc, j as nat, m as nat);
        assert(back[v as int].len() == m);
    }
    cand
}

/// Once the candidates are crowded no further neighbour changes them.
proof fn lemma_crowded_row(v: int, rows: Seq<Seq<Edge>>, lists: Seq<Seq<u32>>, k: nat, cap: nat, j: nat, e: nat)
    requires
        j <= e,
        j == e || crowded(through_row(v, rows, lists, k, cap, j), k, cap),
    ensures
        through_row(v, rows, lists, k, cap, e) == through_row(v, rows, lists, k, cap, j),
    decreases e,
{
    if j < e {
        lemma_crowded_row(v, rows, lists, k, cap, j, (e - 1) as nat);
    }
}

proof fn lemma_crowded_list(v: int, rows: Seq<Seq<Edge>>, lists: Seq<Seq<u32>>, k: nat, cap: nat, j: nat, e: nat)
    requires
        j <= e,
        j == e || crowded(through_list(v, rows, lists, k, cap, j), k, cap),
    ensures
        through_list(v, rows, lists, k, cap, e) == through_list(v, rows, lists, k, cap, j),
    decreases e,
{
    if j < e {
        lemma_crowded_list(v, rows, lists, k, cap, j, (e - 1) as nat);
    }
}

// ---------------------------------------------------------------- the round

/// Every edge of `a` is at least as near as the one at its place in `b`.
pub open spec fn no_farther(a: Seq<Edge>, b: Seq<Edge>) -> bool {
    &&& a.len() == b.len()
    &&& forall|j: int| 0 <= j < a.len() ==> (#[trigger] a[j]).sim >= b[j].sim
}

/// Every edge of `a` is one of `row` or one of `edges`.
pub open spec fn edges_from(a: Seq<Edge>, row: Seq<Edge>, edges: Seq<Edge>) -> bool {
    forall|j: int| 0 <= j < a.len() ==> row.contains(#[trigger] a[j]) || edges.contains(a[j])
}

/// No two of the edges lead to the same point.
pub open spec fn distinct(row: Seq<Edge>) -> bool {
    forall|i: int, j: int| 0 <= i < row.len() && 0 <= j < row.len() && i != j ==> (#[trigger] row[i]).id != (#[trigger] row[j]).id
}

pub proof fn lemma_offered(row: Seq<Edge>, e: Edge)
    requires
        falling(row),
        distinct(row),
        forall|j: int| 0 <= j < row.len() ==> (#[trigger] row[j]).id != e.id,
    ensures
        falling(offered(row, e)),
        distinct(offered(row, e)),
        no_farther(offered(row, e), row),
        forall|j: int| 0 <= j < offered(row, e).len() ==> row.contains(#[trigger] offered(row, e)[j]) || offered(row, e)[j] == e,
{
    let r = offered(row, e);
    if row.len() == 0 || e.sim <= row.last().sim {
        assert forall|j: int| 0 <= j < r.len() implies row.contains(#[trigger] r[j]) by {
            assert(row[j] == r[j]);
        }
    } else {
        let head = row.drop_last();
        assert(falling(head)) by {
            assert forall|i: int, j: int| 0 <= i <= j < head.len() implies (#[trigger] head[i]).sim >= (#[trigger] head[j]).sim by {
                assert(row[i].sim >= row[j].sim);
            }
        }
        lemma_set_in(head, e);
        lemma_set_in_falls(head, e);
        let p = place_of(head, e) as int;
        assert forall|j: int| 0 <= j < r.len() implies (#[trigger] r[j]).sim >= row[j].sim by {
            if j < p {
                assert(r[j] == row[j]);
            } else if j == p {
                if j < head.len() {
                    assert(head[j].sim < e.sim);
                }
            } else {
                assert(r[j] == row[j - 1]);
                assert(row[j - 1].sim >= row[j].sim);
            }
        }
        assert forall|j: int| 0 <= j < r.len() implies row.contains(#[trigger] r[j]) || r[j] == e by {
            if j < p {
                assert(row[j] == r[j]);
            } else if j > p {
                assert(row[j - 1] == r[j]);
            }
        }
        assert forall|i: int, j: int| 0 <= i < r.len() && 0 <= j < r.len() && i != j implies (#[trigger] r[i]).id != (#[trigger] r[j]).id by {
            let x = if i < p { i } else { i - 1 };
            let y = if j < p { j } else { j - 1 };
            if i == p {
                assert(r[j] == row[y]);
            } else if j == p {
                assert(r[i] == row[x]);
            } else {
                assert(r[i] == row[x] && r[j] == row[y]);
            }
        }
    }
}

pub proof fn lemma_improved(row: Seq<Edge>, edges: Seq<Edge>)
    requires
        falling(row),
        distinct(row),
        distinct(edges),
        forall|i: int, j: int| 0 <= i < row.len() && 0 <= j < edges.len() ==> (#[trigger] row[i]).id != (#[trigger] edges[j]).id,
    ensures
        falling(improved(row, edges)),
        distinct(improved(row, edges)),
        no_farther(improved(row, edges), row),
        edges_from(improved(row, edges), row, edges),
    decreases edges.len(),
{
    if edges.len() == 0 {
        assert forall|j: int| 0 <= j < row.len() implies row.contains(#[trigger] row[j]) by {
        }
    } else {
        let head = edges.drop_last();
        let e = edges.last();
        assert forall|i: int, j: int| 0 <= i < head.len() && 0 <= j < head.len() && i != j implies (#[trigger] head[i]).id != (#[trigger] head[j]).id by {
            assert(edges[i].id != edges[j].id);
        }
        assert forall|i: int, j: int| 0 <= i < row.len() && 0 <= j < head.len() implies (#[trigger] row[i]).id != (#[trigger] head[j]).id by {
            assert(row[i].id != edges[j].id);
        }
        lemma_improved(row, head);
        let before = improved(row, head);
        assert forall|j: int| 0 <= j < before.len() implies (#[trigger] before[j]).id != e.id by {
            if row.contains(before[j]) {
                let i = choose|i: int| 0 <= i < row.len() && row[i] == before[j];
                assert(row[i].id != edges[edges.len() - 1].id);
            } else {
                let i = choose|i: int| 0 <= i < head.len() && head[i] == before[j];
                assert(edges[i].id != edges[edges.len() - 1].id);
            }
        }
        lemma_offered(before, e);
        let after = improved(row, edges);
        assert forall|j: int| 0 <= j < after.len() implies (#[trigger] after[j]).sim >= row[j].sim by {
            assert(after[j].sim >= before[j].sim);
            assert(before[j].sim >= row[j].sim);
        }
        assert forall|j: int| 0 <= j < after.len() implies row.contains(#[trigger] after[j]) || edges.contains(after[j]) by {
            if after[j] == e {
                assert(edges[edges.len() - 1] == e);
            } else {
                assert(before.contains(after[j]));
                let i = choose|i: int| 0 <= i < before.len() && before[i] == after[j];
                if head.contains(before[i]) {
                    let x = choose|x: int| 0 <= x < head.len() && head[x] == before[i];
                    assert(edges[x] == after[j]);
                }
            }
        }
    }
}

proof fn lemma_entered_none(row: Seq<Edge>, edges: Seq<Edge>)
    ensures
        entered(row, edges) == 0 ==> improved(row, edges) == row,
        entered(row, edges) <= edges.len(),
    decreases edges.len(),
{
    if edges.len() > 0 {
        lemma_entered_none(row, edges.drop_last());
    }
}

/// The row of a point after a round is again a row of that point, and no place in it holds a farther
/// neighbour than before.
pub proof fn law_round_improves_rows(data: I8Bin<'_>, l2: bool, v: int, rows: Seq<Seq<Edge>>, lists: Seq<Seq<u32>>, k: nat, cap: nat, age: u8)
    requires
        data.nb == rows.len(),
        data.d <= dim_limit(l2),
        data.wf(),
        rows.len() <= u32::MAX,
        0 <= v < rows.len(),
        join_ok(rows, lists, k, cap),
        row_ok(data, l2, k, v, rows[v]),
    ensures
        row_ok(data, l2, k, v, next_row(data, l2, v, rows, lists, k, cap, age)),
        no_farther(next_row(data, l2, v, rows, lists, k, cap, age), rows[v]),
{
    let row = rows[v];
    let old_row = aged(row);
    let cand = candidates(v, rows, lists, k, cap);
    lemma_through_list(v, rows, lists, k, cap, lists[v].len());
    let edges = scored(data, l2, v, cand, age);
    let ids = ids_in(row);
    assert forall|i: int, j: int| 0 <= i <= j < old_row.len() implies (#[trigger] old_row[i]).sim >= (#[trigger] old_row[j]).sim by {
        assert(row[i].sim >= row[j].sim);
    }
    assert forall|i: int, j: int| 0 <= i < old_row.len() && 0 <= j < old_row.len() && i != j implies (#[trigger] old_row[i]).id != (#[trigger] old_row[j]).id by {
        assert(ids[i] != ids[j]);
    }
    assert forall|i: int, j: int| 0 <= i < edges.len() && 0 <= j < edges.len() && i != j implies (#[trigger] edges[i]).id != (#[trigger] edges[j]).id by {
        assert(cand[i] != cand[j]);
    }
    assert forall|i: int, j: int| 0 <= i < old_row.len() && 0 <= j < edges.len() implies (#[trigger] old_row[i]).id != (#[trigger] edges[j]).id by {
        assert(!ids.contains(cand[j]));
        assert(ids.contains(ids[i]));
    }
    lemma_improved(old_row, edges);
    let next = next_row(data, l2, v, rows, lists, k, cap, age);
    let x = data.spec_row(v);
    let nids = ids_in(next);
    assert forall|j: int| 0 <= j < next.len() implies (#[trigger] next[j]).sim == sim(l2, x, data.spec_row(next[j].id as int)) && next[j].id < data.nb && next[j].id != v as u32 by {
        if old_row.contains(next[j]) {
            let i = choose|i: int| 0 <= i < old_row.len() && old_row[i] == next[j];
            assert(row[i].sim == sim(l2, x, data.spec_row(row[i].id as int)));
            assert(ids[i] < data.nb && ids[i] != v as u32);
        } else {
            let i = choose|i: int| 0 <= i < edges.len() && edges[i] == next[j];
            assert(cand[i] < rows.len() && cand[i] != v as u32);
            lemma_sim_fits(data, l2, v, cand[i] as int);
        }
    }
    assert forall|j: int| 0 <= j < nids.len() implies #[trigger] nids[j] < data.nb && nids[j] != v as u32 by {
        assert(next[j].id < data.nb);
    }
    assert forall|i: int, j: int| 0 <= i < nids.len() && 0 <= j < nids.len() && i != j implies nids[i] != nids[j] by {
        assert(next[i].id != next[j].id);
    }
    assert forall|j: int| 0 <= j < next.len() implies (#[trigger] next[j]).sim >= row[j].sim by {
        assert(next[j].sim >= old_row[j].sim);
    }
}

pub proof fn lemma_sim_fits(data: I8Bin<'_>, l2: bool, v: int, w: int)
    requires
        data.wf(),
        data.d <= dim_limit(l2),
        0 <= v < data.nb,
        0 <= w < data.nb,
    ensures
        i32::MIN <= sim(l2, data.spec_row(v), data.spec_row(w)) <= i32::MAX,
{
    let x = data.spec_row(v);
    let y = data.spec_row(w);
    crate::simd::lemma_row_in_range(v, data.d as int, data.nb as int, data.data@.len() as int);
    crate::simd::lemma_row_in_range(w, data.d as int, data.nb as int, data.data@.len() as int);
    crate::simd::lemma_inner_bound(x, y, x.len());
    crate::simd::lemma_inner_bound(y, y, y.len());
}

/// A round in which no edge enters leaves every row with the neighbours that it had.
pub proof fn law_still_round_changes_nothing(data: I8Bin<'_>, l2: bool, n: nat, rows: Seq<Seq<Edge>>, lists: Seq<Seq<u32>>, k: nat, cap: nat, age: u8, v: int)
    requires
        gained(data, l2, n, rows, lists, k, cap, age) == 0,
        0 <= v < n,
    ensures
        next_row(data, l2, v, rows, lists, k, cap, age) == aged(rows[v]),
    decreases n,
{
    let w = n - 1;
    let edges = scored(data, l2, w, candidates(w, rows, lists, k, cap), age);
    lemma_entered_none(aged(rows[w]), edges);
    if v < w {
        law_still_round_changes_nothing(data, l2, (n - 1) as nat, rows, lists, k, cap, age, v);
    }
}

fn age_row(row: &Vec<Edge>) -> (r: Vec<Edge>)
    ensures
        r@ == aged(row@),
{
    let n: usize = row.len();
    let mut out: Vec<Edge> = Vec::new();
    let mut j: usize = 0;
    while j < n
        invariant
            j <= n,
            n == row@.len(),
            out@.len() == j,
            forall|i: int| 0 <= i < j ==> #[trigger] out@[i] == aged(row@)[i],
        decreases n - j,
    {
        let e: Edge = row[j];
        out.push(Edge { sim: e.sim, id: e.id, fresh: if e.fresh > 0 { e.fresh - 1 } else { 0 } });
        j = j + 1;
    }
    assert(out@ =~= aged(row@));
    out
}

/// Offer the edges to the candidates to a row; how many entered.
fn improve_row(ds: &I8Bin<'_>, l2: bool, v: usize, cand: &Vec<u32>, age: u8, row: &mut Vec<Edge>) -> (gain: u64)
    requires
        ds.wf(),
        ds.d <= dim_limit(l2),
        v < ds.nb,
        ds.nb < NEW_MARK,
        forall|j: int| 0 <= j < cand@.len() ==> #[trigger] cand@[j] < ds.nb,
    ensures
        final(row)@ == improved(old(row)@, scored(*ds, l2, v as int, cand@, age)),
        gain == entered(old(row)@, scored(*ds, l2, v as int, cand@, age)),
        gain <= cand@.len(),
{
    let n: usize = cand.len();
    let ghost start = row@;
    let ghost all = scored(*ds, l2, v as int, cand@, age);
    let mut gain: u64 = 0;
    let mut j: usize = 0;
    assert(all.take(0) =~= Seq::<Edge>::empty());
    while j < n
        invariant
            j <= n,
            n == cand@.len(),
            ds.wf(),
            ds.d <= dim_limit(l2),
            v < ds.nb,
            forall|i: int| 0 <= i < cand@.len() ==> #[trigger] cand@[i] < ds.nb,
            all == scored(*ds, l2, v as int, cand@, age),
            row@ == improved(start, all.take(j as int)),
            gain == entered(start, all.take(j as int)),
            gain <= j,
        decreases n - j,
    {
        assert(all.take(j + 1).drop_last() =~= all.take(j as int));
        let e: Edge = crate::knn::edge_to(ds, l2, v, cand[j], age);
        assert(e == all[j as int]);
        assert(all.take(j + 1).last() == e);
        let took: bool = offer_edge(row, e);
        if took {
            gain = gain + 1;
        }
        j = j + 1;
    }
    assert(all.take(n as int) =~= all);
    gain
}

/// The lists of reversed edges of a graph in a round.
pub open spec fn round_lists(rows: Seq<Seq<Edge>>, cap: nat, round: u64) -> Seq<Seq<u32>> {
    reverse_rows(rows, rows.len(), cap, round_salt(round)).lists
}

/// How new the edges of row `v` are at the start, where the first `settled` rows are known.
pub open spec fn start_age(v: int, settled: nat, age: u8) -> u8 {
    if v < settled {
        0
    } else {
        age
    }
}

impl KnnGraph {
    /// The graph that the rounds start from: each row holds its usable seeds, filled up by drawn points.
    /// The edges of the first `settled` rows count as old, so that only the others are joined anew.
    pub fn start(ds: &I8Bin<'_>, l2: bool, k: usize, seeds: &Vec<u32>, ks: usize, settled: usize, age: u8) -> (g: KnnGraph)
        requires
            ds.wf(),
            ds.d <= dim_limit(l2),
            1 <= k <= 128,
            k < ds.nb,
            ds.nb < NEW_MARK,
            seeds@.len() >= ds.nb * ks,
        ensures
            g.k == k,
            g.wf(*ds, l2),
            forall|v: int| 0 <= v < ds.nb ==> (#[trigger] g.rows@[v])@ == ranked(scored(*ds, l2, v, start_row(seed_row(seeds@, ks as nat, v), v as u32, ds.nb as nat, k as nat), start_age(v, settled as nat, age))),
    {
        let n: usize = ds.nb;
        let total: usize = seeds.len();
        let mut rows: Vec<Vec<Edge>> = Vec::new();
        let mut v: usize = 0;
        while v < n
            invariant
                v <= n,
                n == ds.nb,
                total == seeds@.len(),
                total >= n * ks,
                ds.wf(),
                ds.d <= dim_limit(l2),
                1 <= k <= 128,
                k < n,
                n < NEW_MARK,
                rows@.len() == v,
                forall|x: int| 0 <= x < v ==> row_ok(*ds, l2, k as nat, x, #[trigger] rows@[x]@),
                forall|x: int| 0 <= x < v ==> (#[trigger] rows@[x])@ == ranked(scored(*ds, l2, x, start_row(seed_row(seeds@, ks as nat, x), x as u32, n as nat, k as nat), start_age(x, settled as nat, age))),
            decreases n - v,
        {
            proof {
                assert(v * ks + ks <= n * ks) by (nonlinear_arith)
                    requires
                        v < n,
                ;
                assert(0 <= v * ks) by (nonlinear_arith);
            }
            let part: &[u32] = slice_subrange(seeds.as_slice(), v * ks, v * ks + ks);
            assert(part@ =~= seed_row(seeds@, ks as nat, v as int));
            let ids: Vec<u32> = first_row(part, v as u32, n, k);
            let fresh: u8 = if v < settled { 0 } else { age };
            let row: Vec<Edge> = rank_row(ds, l2, v, &ids, fresh);
            proof {
                lemma_ranked_row(*ds, l2, v as int, ids@, fresh, k as nat);
            }
            rows.push(row);
            v = v + 1;
        }
        KnnGraph { k, rows }
    }

    /// One round: every row is joined with the points that lie one step behind its neighbours, in
    /// both directions, over edges of which at least one is new. Returns how many edges entered.
    pub fn round(&self, ds: &I8Bin<'_>, l2: bool, cap: usize, round: u64, age: u8) -> (r: (KnnGraph, u64))
        requires
            ds.wf(),
            ds.d <= dim_limit(l2),
            self.wf(*ds, l2),
            1 <= self.k <= 128,
            cap <= 128,
            ds.nb < NEW_MARK,
        ensures
            r.0.k == self.k,
            r.0.wf(*ds, l2),
            r.0.rows@.len() == ds.nb,
            forall|v: int| 0 <= v < ds.nb ==> (#[trigger] r.0.rows@[v])@ == next_row(*ds, l2, v, self.model(), round_lists(self.model(), cap as nat, round), self.k as nat, cap as nat, age),
            r.1 == gained(*ds, l2, ds.nb as nat, self.model(), round_lists(self.model(), cap as nat, round), self.k as nat, cap as nat, age),
    {
        let n: usize = ds.nb;
        let k: usize = self.k;
        let ghost all = self.model();
        let ghost kk = k as nat;
        let ghost cc = cap as nat;
        proof {
            assert forall|x: int, y: int| edge_at(all, x, y) implies (#[trigger] all[x][y]).id < all.len() by {
                assert(row_ok(*ds, l2, kk, x, self.rows@[x]@));
                assert(ids_in(self.rows@[x]@)[y] < ds.nb);
            }
            assert forall|v: int| 0 <= v < self.rows@.len() implies (#[trigger] self.rows@[v])@.len() <= 128 by {
                assert(row_ok(*ds, l2, kk, v, self.rows@[v]@));
            }
        }
        let salt: u64 = crate::knn::draw(0xd1b5_4a32u64 ^ round.wrapping_mul(SPREAD));
        let back: Reversed = reverse(&self.rows, cap, salt);
        let ghost lists = lists_of(back.lists@);
        proof {
            lemma_reverse_rows(all, all.len(), cc, salt);
            assert(lists =~= back.model().lists);
            assert forall|v: int| 0 <= v < all.len() implies (#[trigger] all[v]).len() == kk by {
                assert(row_ok(*ds, l2, kk, v, self.rows@[v]@));
            }
            assert(join_ok(all, lists, kk, cc));
        }
        let mut marks: Vec<u32> = vec![0u32; n];
        let mut rows: Vec<Vec<Edge>> = Vec::new();
        let mut gain: u64 = 0;
        let mut v: usize = 0;
        while v < n
            invariant
                v <= n,
                n == ds.nb,
                k == self.k,
                kk == k,
                cc == cap,
                1 <= k <= 128,
                cap <= 128,
                n < NEW_MARK,
                ds.wf(),
                ds.d <= dim_limit(l2),
                self.wf(*ds, l2),
                all == self.model(),
                lists == lists_of(back.lists@),
                join_ok(all, lists, kk, cc),
                marks@.len() == n,
                forall|x: int| 0 <= x < n ==> #[trigger] marks@[x] <= v,
                rows@.len() == v,
                forall|x: int| 0 <= x < v ==> row_ok(*ds, l2, kk, x, #[trigger] rows@[x]@),
                forall|x: int| 0 <= x < v ==> (#[trigger] rows@[x])@ == next_row(*ds, l2, x, all, lists, kk, cc, age),
                gain == gained(*ds, l2, v as nat, all, lists, kk, cc, age),
                gain <= 8193 * v,
            decreases n - v,
        {
            let cand: Vec<u32> = join(&self.rows, &back.lists, v, k, cap, &mut marks);
            let mut row: Vec<Edge> = age_row(&self.rows[v]);
            assert(all[v as int] == self.rows@[v as int]@);
            proof {
                lemma_through_list(v as int, all, lists, kk, cc, lists[v as int].len());
                assert(row_ok(*ds, l2, kk, v as int, self.rows@[v as int]@));
                law_round_improves_rows(*ds, l2, v as int, all, lists, kk, cc, age);
            }
            let more: u64 = improve_row(ds, l2, v, &cand, age, &mut row);
            gain = gain + more;
            rows.push(row);
            v = v + 1;
        }
        (KnnGraph { k, rows }, gain)
    }

    /// The neighbours of all points, row behind row.
    pub fn flat(&self) -> (r: Vec<u32>)
        ensures
            r@ == flat_ids(self.model(), self.rows@.len()),
    {
        let n: usize = self.rows.len();
        let ghost all = self.model();
        let mut out: Vec<u32> = Vec::new();
        let mut v: usize = 0;
        while v < n
            invariant
                v <= n,
                n == self.rows@.len(),
                all == self.model(),
                out@ == flat_ids(all, v as nat),
            decreases n - v,
        {
            let ghost before = out@;
            let ghost ids = ids_in(all[v as int]);
            let k: usize = self.rows[v].len();
            let mut j: usize = 0;
            while j < k
                invariant
                    j <= k,
                    v < self.rows@.len(),
                    k == self.rows@[v as int]@.len(),
                    ids == ids_in(self.rows@[v as int]@),
                    out@ =~= before + ids.take(j as int),
                decreases k - j,
            {
                out.push(self.rows[v][j].id);
                j = j + 1;
            }
            assert(ids.take(k as int) =~= ids);
            v = v + 1;
        }
        out
    }
}

/// The neighbours of the first `n` points, row behind row.
pub open spec fn flat_ids(rows: Seq<Seq<Edge>>, n: nat) -> Seq<u32>
    decreases n,
{
    if n == 0 {
        Seq::empty()
    } else {
        flat_ids(rows, (n - 1) as nat) + ids_in(rows[n - 1])
    }
}

/// Ranking keeps the edges.
pub proof fn lemma_ranked(edges: Seq<Edge>)
    requires
        distinct(edges),
    ensures
        falling(ranked(edges)),
        distinct(ranked(edges)),
        ranked(edges).len() == edges.len(),
        forall|j: int| 0 <= j < ranked(edges).len() ==> edges.contains(#[trigger] ranked(edges)[j]),
    decreases edges.len(),
{
    if edges.len() > 0 {
        let head = edges.drop_last();
        let e = edges.last();
        assert forall|i: int, j: int| 0 <= i < head.len() && 0 <= j < head.len() && i != j implies (#[trigger] head[i]).id != (#[trigger] head[j]).id by {
            assert(edges[i].id != edges[j].id);
        }
        lemma_ranked(head);
        let before = ranked(head);
        let after = ranked(edges);
        lemma_set_in(before, e);
        lemma_set_in_falls(before, e);
        let p = place_of(before, e) as int;
        assert forall|j: int| 0 <= j < before.len() implies (#[trigger] before[j]).id != e.id by {
            assert(head.contains(before[j]));
            let i = choose|i: int| 0 <= i < head.len() && head[i] == before[j];
            assert(edges[i].id != edges[edges.len() - 1].id);
        }
        assert forall|j: int| 0 <= j < after.len() implies edges.contains(#[trigger] after[j]) by {
            if j == p {
                assert(edges[edges.len() - 1] == after[j]);
            } else {
                let x = if j < p { j } else { j - 1 };
                assert(after[j] == before[x]);
                assert(head.contains(before[x]));
                let i = choose|i: int| 0 <= i < head.len() && head[i] == before[x];
                assert(edges[i] == after[j]);
            }
        }
        assert forall|i: int, j: int| 0 <= i < after.len() && 0 <= j < after.len() && i != j implies (#[trigger] after[i]).id != (#[trigger] after[j]).id by {
            let x = if i < p { i } else { i - 1 };
            let y = if j < p { j } else { j - 1 };
            if i == p {
                assert(after[j] == before[y]);
            } else if j == p {
                assert(after[i] == before[x]);
            } else {
                assert(after[i] == before[x] && after[j] == before[y]);
                assert(before[x].id != before[y].id);
            }
        }
    }
}

proof fn lemma_ranked_row(data: I8Bin<'_>, l2: bool, v: int, ids: Seq<u32>, fresh: u8, k: nat)
    requires
        data.wf(),
        data.d <= dim_limit(l2),
        0 <= v < data.nb,
        proper_row(ids, v as u32, data.nb as nat),
        ids.len() == k,
    ensures
        row_ok(data, l2, k, v, ranked(scored(data, l2, v, ids, fresh))),
{
    let edges = scored(data, l2, v, ids, fresh);
    assert forall|i: int, j: int| 0 <= i < edges.len() && 0 <= j < edges.len() && i != j implies (#[trigger] edges[i]).id != (#[trigger] edges[j]).id by {
        assert(ids[i] != ids[j]);
    }
    lemma_ranked(edges);
    let row = ranked(edges);
    let x = data.spec_row(v);
    assert forall|j: int| 0 <= j < row.len() implies (#[trigger] row[j]).sim == sim(l2, x, data.spec_row(row[j].id as int)) && row[j].id < data.nb && row[j].id != v as u32 by {
        assert(edges.contains(row[j]));
        let i = choose|i: int| 0 <= i < edges.len() && edges[i] == row[j];
        assert(ids[i] < data.nb && ids[i] != v as u32);
        lemma_sim_fits(data, l2, v, ids[i] as int);
    }
    let rids = ids_in(row);
    assert forall|j: int| 0 <= j < rids.len() implies #[trigger] rids[j] < data.nb && rids[j] != v as u32 by {
        assert(row[j].id < data.nb);
    }
    assert forall|i: int, j: int| 0 <= i < rids.len() && 0 <= j < rids.len() && i != j implies rids[i] != rids[j] by {
        assert(row[i].id != row[j].id);
    }
}

} // verus!
