//! From a pool of approximate candidates to exactly scored, distinct survivors.
use vstd::prelude::*;
use vstd::slice::slice_subrange;
use crate::order::{ascending, place, sorted, Ranked};
use crate::order::{lemma_ascending, lemma_place};
use crate::simd::{l2, dot, row_of, l2_i8, negdot_i8, L2_DIM, lemma_sqdist_bound, lemma_inner_bound};
use crate::table::IdTable;

verus! {

/// Point id of a slot that holds no point: padding of a block, or a deleted point.
pub const NO_POINT: u32 = 0xffff_ffff;

/// Exact score of a row: squared L2, or the negated inner product. Smaller is better.
pub open spec fn score(ip: bool, q: Seq<i8>, row: Seq<i8>) -> int {
    if ip {
        -dot(q, row)
    } else {
        l2(q, row)
    }
}

pub proof fn lemma_score_fits(ip: bool, q: Seq<i8>, row: Seq<i8>)
    requires
        q.len() <= L2_DIM,
    ensures
        i32::MIN < score(ip, q, row) < i32::MAX,
{
    lemma_sqdist_bound(q, row, q.len());
    lemma_inner_bound(q, row, q.len());
}

pub fn score_row(ip: bool, q: &[i8], row: &[i8]) -> (r: i32)
    requires
        q@.len() <= row@.len(),
        q@.len() <= L2_DIM,
    ensures
        r == score(ip, q@, row@),
{
    if ip {
        negdot_i8(q, row)
    } else {
        l2_i8(q, row)
    }
}

// ---------------------------------------------------------------- dedup by point

/// What a pass over a pool of `(dist, slot)` has collected, one entry per point in order of first
/// occurrence.
pub struct PoolPass {
    /// Least distance and the slot that first reached it.
    pub best: Seq<(i32, u32)>,
    /// The point.
    pub origs: Seq<u32>,
    /// The slot at which the point occurred first.
    pub slots: Seq<u32>,
}

/// One step of the pass: slots without a point are skipped, a new point is appended, a known one
/// keeps its smaller distance.
pub open spec fn pass_step(s: PoolPass, slot_orig: Seq<u32>, e: (i32, u32)) -> PoolPass {
    let o = slot_orig[e.1 as int];
    if o == NO_POINT {
        s
    } else if s.origs.contains(o) {
        let p = s.origs.index_of(o);
        if e.0 < s.best[p].0 {
            PoolPass { best: s.best.update(p, e), ..s }
        } else {
            s
        }
    } else {
        PoolPass { best: s.best.push(e), origs: s.origs.push(o), slots: s.slots.push(e.1) }
    }
}

/// The pass over the first `n` entries.
pub open spec fn pool_pass(pool: Seq<(i32, u32)>, slot_orig: Seq<u32>, n: nat) -> PoolPass
    decreases n,
{
    if n == 0 {
        PoolPass { best: Seq::empty(), origs: Seq::empty(), slots: Seq::empty() }
    } else {
        pass_step(pool_pass(pool, slot_orig, (n - 1) as nat), slot_orig, pool[n - 1])
    }
}

/// A pool reduced to one entry per point; a pool of fewer than two entries is left as it is.
pub open spec fn deduped(pool: Seq<(i32, u32)>, slot_orig: Seq<u32>) -> Seq<(i32, u32)> {
    if pool.len() < 2 {
        pool
    } else {
        pool_pass(pool, slot_orig, pool.len()).best
    }
}

/// Every slot of the pool exists.
pub open spec fn slots_exist(pool: Seq<(i32, u32)>, slot_orig: Seq<u32>) -> bool {
    forall|i: int| 0 <= i < pool.len() ==> (#[trigger] pool[i]).1 < slot_orig.len()
}

pub proof fn lemma_pool_pass(pool: Seq<(i32, u32)>, slot_orig: Seq<u32>, n: nat)
    requires
        n <= pool.len(),
        slots_exist(pool, slot_orig),
    ensures
        ({
            let s = pool_pass(pool, slot_orig, n);
            &&& s.best.len() == s.origs.len()
            &&& s.slots.len() == s.origs.len()
            &&& s.origs.len() <= n
            &&& s.origs.no_duplicates()
            &&& forall|i: int| 0 <= i < s.origs.len() ==> #[trigger] s.origs[i] != NO_POINT
            &&& forall|i: int| 0 <= i < s.best.len() ==> pool.take(n as int).contains(#[trigger] s.best[i])
            &&& forall|i: int| 0 <= i < s.best.len() ==> (#[trigger] s.best[i]).1 < slot_orig.len() && slot_orig[s.best[i].1 as int] == s.origs[i]
            &&& forall|i: int| 0 <= i < s.slots.len() ==> (#[trigger] s.slots[i]) < slot_orig.len() && slot_orig[s.slots[i] as int] == s.origs[i]
            &&& forall|j: int| 0 <= j < n && slot_orig[(#[trigger] pool[j]).1 as int] != NO_POINT ==> exists|i: int|
                0 <= i < s.origs.len() && #[trigger] s.origs[i] == slot_orig[pool[j].1 as int] && s.best[i].0 <= pool[j].0
        }),
    decreases n,
{
    if n > 0 {
        let m = (n - 1) as nat;
        lemma_pool_pass(pool, slot_orig, m);
        let s = pool_pass(pool, slot_orig, m);
        let t = pool_pass(pool, slot_orig, n);
        let e = pool[m as int];
        let o = slot_orig[e.1 as int];
        assert(e.1 < slot_orig.len());
        assert forall|x: (i32, u32)| pool.take(m as int).contains(x) implies pool.take(n as int).contains(x) by {
            let k = choose|k: int| 0 <= k < m && pool.take(m as int)[k] == x;
            assert(pool.take(n as int)[k] == x);
        }
        assert(pool.take(n as int)[m as int] == e);
        if o != NO_POINT && s.origs.contains(o) {
            let p = s.origs.index_of(o);
            assert(0 <= p < s.origs.len() && s.origs[p] == o);
            assert forall|i: int| 0 <= i < t.best.len() implies (#[trigger] t.best[i]).1 < slot_orig.len() && slot_orig[t.best[i].1 as int] == t.origs[i] by {
                if i == p {
                } else {
                    assert(t.best[i] == s.best[i]);
                }
            }
            assert forall|i: int| 0 <= i < t.best.len() implies pool.take(n as int).contains(#[trigger] t.best[i]) by {
                if t.best[i] != e {
                    assert(t.best[i] == s.best[i]);
                }
            }
        }
        assert forall|j: int| 0 <= j < n && slot_orig[(#[trigger] pool[j]).1 as int] != NO_POINT implies exists|i: int|
            0 <= i < t.origs.len() && #[trigger] t.origs[i] == slot_orig[pool[j].1 as int] && t.best[i].0 <= pool[j].0 by {
            if j < m {
                let i = choose|i: int| 0 <= i < s.origs.len() && #[trigger] s.origs[i] == slot_orig[pool[j].1 as int] && s.best[i].0 <= pool[j].0;
                assert(t.origs[i] == s.origs[i]);
            } else if s.origs.contains(o) {
                let p = s.origs.index_of(o);
                assert(t.origs[p] == o);
            } else {
                assert(t.origs[t.origs.len() - 1] == o);
            }
        }
        if o != NO_POINT && !s.origs.contains(o) {
            assert(t.origs.no_duplicates()) by {
                assert forall|a: int, b: int| 0 <= a < t.origs.len() && 0 <= b < t.origs.len() && a != b implies t.origs[a] != t.origs[b] by {
                    if a == s.origs.len() {
                        assert(t.origs[b] == s.origs[b]);
                    } else if b == s.origs.len() {
                        assert(t.origs[a] == s.origs[a]);
                    }
                }
            }
        }
    }
}

/// Dedup keeps one entry per point, taken from the pool, with the least distance of that point, and
/// forgets no point.
pub proof fn law_dedup_keeps_the_best_of_each_point(pool: Seq<(i32, u32)>, slot_orig: Seq<u32>)
    requires
        slots_exist(pool, slot_orig),
        forall|i: int| 0 <= i < pool.len() ==> slot_orig[(#[trigger] pool[i]).1 as int] != NO_POINT,
    ensures
        ({
            let r = deduped(pool, slot_orig);
            &&& forall|i: int| 0 <= i < r.len() ==> pool.contains(#[trigger] r[i])
            &&& forall|i: int, j: int| 0 <= i < j < r.len() ==> slot_orig[(#[trigger] r[i]).1 as int] != slot_orig[(#[trigger] r[j]).1 as int]
            &&& forall|j: int| 0 <= j < pool.len() ==> exists|i: int| 0 <= i < r.len() && slot_orig[(#[trigger] r[i]).1 as int] == slot_orig[(#[trigger] pool[j]).1 as int] && r[i].0 <= pool[j].0
        }),
{
    let r = deduped(pool, slot_orig);
    if pool.len() < 2 {
        assert forall|j: int| 0 <= j < pool.len() implies exists|i: int| 0 <= i < r.len() && slot_orig[(#[trigger] r[i]).1 as int] == slot_orig[(#[trigger] pool[j]).1 as int] && r[i].0 <= pool[j].0 by {
            assert(r[j] == pool[j]);
        }
    } else {
        lemma_pool_pass(pool, slot_orig, pool.len());
        assert(pool.take(pool.len() as int) =~= pool);
        let s = pool_pass(pool, slot_orig, pool.len());
        assert forall|i: int, j: int| 0 <= i < j < r.len() implies slot_orig[(#[trigger] r[i]).1 as int] != slot_orig[(#[trigger] r[j]).1 as int] by {
            assert(s.origs[i] != s.origs[j]);
        }
        assert forall|j: int| 0 <= j < pool.len() implies exists|i: int| 0 <= i < r.len() && slot_orig[(#[trigger] r[i]).1 as int] == slot_orig[(#[trigger] pool[j]).1 as int] && r[i].0 <= pool[j].0 by {
            let i = choose|i: int| 0 <= i < s.origs.len() && #[trigger] s.origs[i] == slot_orig[pool[j].1 as int] && s.best[i].0 <= pool[j].0;
            assert(slot_orig[r[i].1 as int] == s.origs[i]);
        }
    }
}

/// A pool that holds each of its points once is left as it is by the pass.
proof fn lemma_pass_of_distinct(pool: Seq<(i32, u32)>, slot_orig: Seq<u32>, n: nat)
    requires
        n <= pool.len(),
        forall|i: int| 0 <= i < pool.len() ==> slot_orig[(#[trigger] pool[i]).1 as int] != NO_POINT,
        forall|i: int, j: int| 0 <= i < j < pool.len() ==> slot_orig[(#[trigger] pool[i]).1 as int] != slot_orig[(#[trigger] pool[j]).1 as int],
    ensures
        pool_pass(pool, slot_orig, n).best == pool.take(n as int),
        pool_pass(pool, slot_orig, n).origs == Seq::new(n, |i: int| slot_orig[pool[i].1 as int]),
    decreases n,
{
    let s = pool_pass(pool, slot_orig, n);
    let ids = Seq::new(n, |i: int| slot_orig[pool[i].1 as int]);
    if n == 0 {
        assert(s.best =~= pool.take(0));
        assert(s.origs =~= ids);
    } else {
        let m = (n - 1) as nat;
        lemma_pass_of_distinct(pool, slot_orig, m);
        let prev = pool_pass(pool, slot_orig, m);
        let o = slot_orig[pool[m as int].1 as int];
        assert(!prev.origs.contains(o)) by {
            if prev.origs.contains(o) {
                let x = choose|x: int| 0 <= x < prev.origs.len() && prev.origs[x] == o;
                assert(slot_orig[pool[x].1 as int] != slot_orig[pool[m as int].1 as int]);
            }
        }
        assert(s.best =~= pool.take(n as int));
        assert(s.origs =~= ids);
    }
}

/// Reducing a pool a second time changes nothing.
pub proof fn law_second_reduction_changes_nothing(pool: Seq<(i32, u32)>, slot_orig: Seq<u32>)
    requires
        slots_exist(pool, slot_orig),
    ensures
        deduped(deduped(pool, slot_orig), slot_orig) == deduped(pool, slot_orig),
{
    let r = deduped(pool, slot_orig);
    if pool.len() >= 2 && r.len() >= 2 {
        lemma_pool_pass(pool, slot_orig, pool.len());
        let s = pool_pass(pool, slot_orig, pool.len());
        assert forall|i: int| 0 <= i < r.len() implies slot_orig[(#[trigger] r[i]).1 as int] != NO_POINT by {
            assert(s.origs[i] != NO_POINT);
        }
        assert forall|i: int, j: int| 0 <= i < j < r.len() implies slot_orig[(#[trigger] r[i]).1 as int] != slot_orig[(#[trigger] r[j]).1 as int] by {
            assert(s.origs[i] != s.origs[j]);
        }
        lemma_pass_of_distinct(r, slot_orig, r.len());
        assert(r.take(r.len() as int) =~= r);
    }
}

/// There are no more distinct ids below `n` than `n`.
pub proof fn lemma_distinct_below(s: Seq<u32>, n: nat)
    requires
        s.no_duplicates(),
        forall|i: int| 0 <= i < s.len() ==> #[trigger] s[i] < n,
    ensures
        s.len() <= n,
{
    let t = Seq::new(s.len(), |i: int| s[i] as int);
    let range = vstd::set_lib::set_int_range(0, n as int);
    assert(t.no_duplicates());
    t.unique_seq_to_set();
    vstd::set_lib::lemma_int_range(0, n as int);
    assert(t.to_set().subset_of(range)) by {
        assert forall|x: int| t.to_set().contains(x) implies range.contains(x) by {
            let i = choose|i: int| 0 <= i < t.len() && t[i] == x;
            assert(s[i] < n);
        }
    }
    vstd::set_lib::lemma_len_subset(t.to_set(), range);
}

/// The collected pass, with the table from point to position.
pub struct Collected {
    pub best: Vec<(i32, u32)>,
    pub origs: Vec<u32>,
    pub slots: Vec<u32>,
    pub table: IdTable,
}

/// The table maps exactly the collected points; the points of the pool to their position.
pub open spec fn table_has(table: IdTable, origs: Seq<u32>) -> bool {
    &&& table.wf()
    &&& table.count() == origs.len()
    &&& forall|o: u32| #[trigger] table@.dom().contains(o) <==> origs.contains(o)
}

impl Collected {
    pub open spec fn view(&self) -> PoolPass {
        PoolPass { best: self.best@, origs: self.origs@, slots: self.slots@ }
    }
}

/// Run the pass over the whole pool with a table of `cap` cells.
pub fn collect_pool(pool: &Vec<(i32, u32)>, slot_orig: &[u32], cap: usize) -> (r: Collected)
    requires
        slots_exist(pool@, slot_orig@),
        pool@.len() < cap,
    ensures
        r@ == pool_pass(pool@, slot_orig@, pool@.len()),
        table_has(r.table, r.origs@),
        r.table.capacity() == cap,
{
    let mut best: Vec<(i32, u32)> = Vec::with_capacity(pool.len());
    let mut origs: Vec<u32> = Vec::with_capacity(pool.len());
    let mut slots: Vec<u32> = Vec::with_capacity(pool.len());
    let mut table = IdTable::with_cells(cap);
    let mut i: usize = 0;
    assert(best@ =~= Seq::<(i32, u32)>::empty());
    assert(origs@ =~= Seq::<u32>::empty());
    assert(slots@ =~= Seq::<u32>::empty());
    while i < pool.len()
        invariant
            i <= pool@.len(),
            slots_exist(pool@, slot_orig@),
            pool@.len() < cap,
            table_has(table, origs@),
            table.capacity() == cap,
            (PoolPass { best: best@, origs: origs@, slots: slots@ }) == pool_pass(pool@, slot_orig@, i as nat),
            forall|o: u32| #[trigger] table@.dom().contains(o) ==> table@[o] < origs@.len() && origs@[table@[o] as int] == o,
        decreases pool@.len() - i,
    {
        let e: (i32, u32) = (pool[i].0, pool[i].1);
        assert(e == pool@[i as int]);
        let ghost s = pool_pass(pool@, slot_orig@, i as nat);
        proof {
            lemma_pool_pass(pool@, slot_orig@, i as nat);
        }
        let o: u32 = slot_orig[e.1 as usize];
        if o != NO_POINT {
            match table.get(o) {
                Some(p) => {
                    let p: usize = p as usize;
                    proof {
                        assert(s.origs.contains(o));
                        let x = s.origs.index_of(o);
                        assert(s.origs[x] == o && s.origs[p as int] == o);
                        assert(x == p);
                    }
                    if e.0 < best[p].0 {
                        best.set(p, e);
                    }
                },
                None => {
                    let ghost o0 = origs@;
                    proof {
                        assert(s.origs.push(o).no_duplicates()) by {
                            assert forall|a: int, b: int| 0 <= a < b < o0.len() + 1 implies o0.push(o)[a] != o0.push(o)[b] by {
                                if b == o0.len() {
                                    assert(o0.contains(o0[a]));
                                }
                            }
                        }
                        lemma_distinct_below(o0.push(o), NO_POINT as nat);
                    }
                    let n: u32 = origs.len() as u32;
                    let added = table.add_new(o, n);
                    best.push(e);
                    origs.push(o);
                    slots.push(e.1);
                    assert forall|x: u32| #[trigger] table@.dom().contains(x) <==> origs@.contains(x) by {
                        if o0.contains(x) {
                            let k = choose|k: int| 0 <= k < o0.len() && o0[k] == x;
                            assert(origs@[k] == x);
                        }
                        if x == o {
                            assert(origs@[o0.len() as int] == o);
                        }
                        if origs@.contains(x) && x != o {
                            let k = choose|k: int| 0 <= k < origs@.len() && origs@[k] == x;
                            assert(o0[k] == x);
                        }
                    }
                },
            }
        }
        i = i + 1;
    }
    Collected { best, origs, slots, table }
}

/// Reduce a pool of `(dist, slot)` to one entry per point, in place.
pub fn dedup_pool_by_orig(pool: &mut Vec<(i32, u32)>, slot_orig: &[u32])
    requires
        slots_exist(old(pool)@, slot_orig@),
        old(pool)@.len() <= usize::MAX / 2,
    ensures
        final(pool)@ == deduped(old(pool)@, slot_orig@),
{
    if pool.len() >= 2 {
        let c = collect_pool(pool, slot_orig, pool.len() * 2);
        *pool = c.best;
    }
}

// ---------------------------------------------------------------- bounded nearest list

/// One step of the bounded list of the `m` nearest distinct candidates: a candidate that is no
/// nearer than the last of a full list, or whose id is listed, changes nothing; any other takes its
/// place in order, and pushes the last one out of a full list.
pub open spec fn nearest_step(h: Seq<(i32, u32)>, m: nat, c: (i32, u32)) -> Seq<(i32, u32)> {
    if h.len() >= m && c.0 >= h.last().0 {
        h
    } else if lists(h, c.1) {
        h
    } else if h.len() >= m {
        place(h.drop_last(), c)
    } else {
        place(h, c)
    }
}

/// The id is in the list.
pub open spec fn lists(h: Seq<(i32, u32)>, id: u32) -> bool {
    exists|i: int| 0 <= i < h.len() && (#[trigger] h[i]).1 == id
}

/// The list after the first `n` candidates.
pub open spec fn nearest_upto(cands: Seq<(i32, u32)>, m: nat, n: nat) -> Seq<(i32, u32)>
    decreases n,
{
    if n == 0 {
        Seq::empty()
    } else {
        nearest_step(nearest_upto(cands, m, (n - 1) as nat), m, cands[n - 1])
    }
}

/// The `m` nearest distinct candidates, nearest first.
pub open spec fn nearest(cands: Seq<(i32, u32)>, m: nat) -> Seq<(i32, u32)> {
    if m == 0 {
        Seq::empty()
    } else {
        nearest_upto(cands, m, cands.len())
    }
}

/// Each id has one score.
pub open spec fn one_score_per_id(cands: Seq<(i32, u32)>) -> bool {
    forall|i: int, j: int| 0 <= i < cands.len() && 0 <= j < cands.len() && (#[trigger] cands[i]).1 == (#[trigger] cands[j]).1 ==> cands[i].0 == cands[j].0
}

/// The list is ascending, bounded, free of repeated ids, and made of the first `n` candidates.
pub open spec fn nearest_inv(h: Seq<(i32, u32)>, cands: Seq<(i32, u32)>, m: nat, n: nat) -> bool {
    &&& sorted(h)
    &&& h.len() <= m
    &&& forall|i: int, j: int| 0 <= i < j < h.len() ==> (#[trigger] h[i]).1 != (#[trigger] h[j]).1
    &&& forall|i: int| 0 <= i < h.len() ==> exists|c: int| 0 <= c < n && #[trigger] cands[c] == #[trigger] h[i]
}

/// Each of the first `n` candidates is listed, or the list is full of candidates at least as near.
pub open spec fn nearest_complete(h: Seq<(i32, u32)>, cands: Seq<(i32, u32)>, m: nat, n: nat) -> bool {
    forall|c: int| 0 <= c < n ==> lists(h, (#[trigger] cands[c]).1) || (h.len() == m && cands[c].0 >= h.last().0)
}

proof fn lemma_sorted_prefix(h: Seq<(i32, u32)>)
    requires
        sorted(h),
        h.len() > 0,
    ensures
        sorted(h.drop_last()),
{
    let p = h.drop_last();
    assert forall|i: int, j: int| 0 <= i <= j < p.len() implies #[trigger] p[i].le(#[trigger] p[j]) by {
        assert(h[i].le(h[j]));
    }
}

/// Elements of a placed list are the old ones and the new one.
proof fn lemma_place_elements(g: Seq<(i32, u32)>, c: (i32, u32))
    ensures
        place(g, c).len() == g.len() + 1,
        forall|i: int| 0 <= i < place(g, c).len() ==> #[trigger] place(g, c)[i] == c || g.contains(place(g, c)[i]),
        forall|i: int| 0 <= i < g.len() ==> place(g, c).contains(#[trigger] g[i]),
        place(g, c).contains(c),
    decreases g.len(),
{
    if g.len() == 0 || g.last().le(c) {
        assert(g.push(c)[g.len() as int] == c);
        assert forall|i: int| 0 <= i < g.len() implies g.push(c).contains(#[trigger] g[i]) by {
            assert(g.push(c)[i] == g[i]);
        }
    } else {
        let h = g.drop_last();
        lemma_place_elements(h, c);
        let p = place(h, c);
        let q = p.push(g.last());
        let k = choose|k: int| 0 <= k < p.len() && p[k] == c;
        assert(q[k] == c);
        assert forall|i: int| 0 <= i < g.len() implies q.contains(#[trigger] g[i]) by {
            if i == g.len() - 1 {
                assert(q[p.len() as int] == g[i]);
            } else {
                assert(h[i] == g[i]);
                let k = choose|k: int| 0 <= k < p.len() && p[k] == g[i];
                assert(q[k] == g[i]);
            }
        }
        assert forall|i: int| 0 <= i < q.len() implies #[trigger] q[i] == c || g.contains(q[i]) by {
            if i == p.len() {
                assert(g[g.len() - 1] == q[i]);
            } else if p[i] != c {
                let k = choose|k: int| 0 <= k < h.len() && h[k] == p[i];
                assert(g[k] == q[i]);
            }
        }
    }
}

proof fn lemma_place_distinct(g: Seq<(i32, u32)>, c: (i32, u32))
    requires
        forall|i: int, j: int| 0 <= i < j < g.len() ==> (#[trigger] g[i]).1 != (#[trigger] g[j]).1,
        !lists(g, c.1),
    ensures
        forall|i: int, j: int| 0 <= i < j < place(g, c).len() ==> (#[trigger] place(g, c)[i]).1 != (#[trigger] place(g, c)[j]).1,
    decreases g.len(),
{
    if g.len() == 0 || g.last().le(c) {
    } else {
        let h = g.drop_last();
        assert(!lists(h, c.1)) by {
            if lists(h, c.1) {
                let i = choose|i: int| 0 <= i < h.len() && (#[trigger] h[i]).1 == c.1;
                assert(g[i].1 == c.1);
            }
        }
        lemma_place_distinct(h, c);
        lemma_place_elements(h, c);
        let p = place(h, c);
        let q = p.push(g.last());
        assert forall|i: int, j: int| 0 <= i < j < q.len() implies (#[trigger] q[i]).1 != (#[trigger] q[j]).1 by {
            if j == p.len() {
                assert(q[i] == p[i]);
                if p[i] == c {
                    assert(g[g.len() - 1].1 != c.1);
                } else {
                    let k = choose|k: int| 0 <= k < h.len() && h[k] == p[i];
                    assert(g[k].1 != g[g.len() - 1].1);
                }
            }
        }
    }
}

proof fn lemma_nearest_step(h: Seq<(i32, u32)>, cands: Seq<(i32, u32)>, m: nat, n: nat)
    requires
        m > 0,
        n < cands.len(),
        nearest_inv(h, cands, m, n),
    ensures
        nearest_inv(nearest_step(h, m, cands[n as int]), cands, m, n + 1),
{
    let c = cands[n as int];
    let r = nearest_step(h, m, c);
    assert forall|i: int| 0 <= i < h.len() implies exists|k: int| 0 <= k < n + 1 && #[trigger] cands[k] == #[trigger] h[i] by {
        let k = choose|k: int| 0 <= k < n && cands[k] == h[i];
        assert(cands[k] == h[i]);
    }
    if !(h.len() >= m && c.0 >= h.last().0) && !lists(h, c.1) {
        let g = if h.len() >= m { h.drop_last() } else { h };
        if h.len() >= m {
            lemma_sorted_prefix(h);
        }
        assert(!lists(g, c.1)) by {
            if lists(g, c.1) {
                let i = choose|i: int| 0 <= i < g.len() && (#[trigger] g[i]).1 == c.1;
                assert(h[i].1 == c.1);
            }
        }
        lemma_place(g, c);
        lemma_place_elements(g, c);
        lemma_place_distinct(g, c);
        assert forall|i: int| 0 <= i < r.len() implies exists|k: int| 0 <= k < n + 1 && #[trigger] cands[k] == #[trigger] r[i] by {
            if r[i] == c {
                assert(cands[n as int] == r[i]);
            } else {
                let x = choose|x: int| 0 <= x < g.len() && g[x] == r[i];
                assert(h[x] == r[i]);
                let k = choose|k: int| 0 <= k < n && cands[k] == h[x];
                assert(cands[k] == r[i]);
            }
        }
    }
}

proof fn lemma_nearest_complete(h: Seq<(i32, u32)>, cands: Seq<(i32, u32)>, m: nat, n: nat)
    requires
        m > 0,
        n < cands.len(),
        one_score_per_id(cands),
        nearest_inv(h, cands, m, n),
        nearest_complete(h, cands, m, n),
    ensures
        nearest_complete(nearest_step(h, m, cands[n as int]), cands, m, n + 1),
{
    let c = cands[n as int];
    let r = nearest_step(h, m, c);
    if h.len() >= m && c.0 >= h.last().0 {
    } else if lists(h, c.1) {
    } else {
        let g = if h.len() >= m { h.drop_last() } else { h };
        if h.len() >= m {
            lemma_sorted_prefix(h);
        }
        lemma_place(g, c);
        lemma_place_elements(g, c);
        assert(lists(r, c.1)) by {
            let k = choose|k: int| 0 <= k < r.len() && r[k] == c;
            assert(r[k].1 == c.1);
        }
        let full = h.len() >= m;
        // the last of the new list is no farther than the last of a full old one
        if full {
            let l = r.last();
            assert(r[r.len() - 1] == l);
            if l != c {
                let x = choose|x: int| 0 <= x < g.len() && g[x] == l;
                assert(h[x].le(h[h.len() - 1]));
            }
            assert(l.0 <= h.last().0);
        }
        assert forall|k: int| 0 <= k < n + 1 implies lists(r, (#[trigger] cands[k]).1) || (r.len() == m && cands[k].0 >= r.last().0) by {
            if k < n {
                if lists(h, cands[k].1) {
                    let i = choose|i: int| 0 <= i < h.len() && (#[trigger] h[i]).1 == cands[k].1;
                    if full && i == h.len() - 1 {
                        let w = choose|w: int| 0 <= w < n && cands[w] == h[i];
                        assert(cands[w].1 == cands[k].1);
                        assert(cands[k].0 == h[i].0);
                    } else {
                        assert(g[i] == h[i]);
                        assert(r.contains(g[i]));
                        let x = choose|x: int| 0 <= x < r.len() && r[x] == g[i];
                        assert(r[x].1 == cands[k].1);
                    }
                }
            }
        }
    }
}

pub proof fn lemma_nearest(cands: Seq<(i32, u32)>, m: nat, n: nat)
    requires
        m > 0,
        n <= cands.len(),
    ensures
        sorted(nearest_upto(cands, m, n)),
        nearest_upto(cands, m, n).len() <= m,
        nearest_inv(nearest_upto(cands, m, n), cands, m, n),
    decreases n,
{
    if n > 0 {
        lemma_nearest(cands, m, (n - 1) as nat);
        lemma_nearest_step(nearest_upto(cands, m, (n - 1) as nat), cands, m, (n - 1) as nat);
    }
}

pub proof fn lemma_nearest_all(cands: Seq<(i32, u32)>, m: nat, n: nat)
    requires
        m > 0,
        n <= cands.len(),
        one_score_per_id(cands),
    ensures
        nearest_complete(nearest_upto(cands, m, n), cands, m, n),
    decreases n,
{
    if n > 0 {
        lemma_nearest_all(cands, m, (n - 1) as nat);
        lemma_nearest(cands, m, (n - 1) as nat);
        lemma_nearest_complete(nearest_upto(cands, m, (n - 1) as nat), cands, m, (n - 1) as nat);
    }
}

/// The bounded list is ascending, holds no id twice and only candidates, and leaves out a candidate
/// only where it is full of candidates that are at least as near.
pub proof fn law_nearest_holds_the_nearest(cands: Seq<(i32, u32)>, m: nat)
    requires
        m > 0,
        one_score_per_id(cands),
    ensures
        ({
            let h = nearest(cands, m);
            &&& sorted(h)
            &&& h.len() <= m
            &&& forall|i: int, j: int| 0 <= i < j < h.len() ==> (#[trigger] h[i]).1 != (#[trigger] h[j]).1
            &&& forall|i: int| 0 <= i < h.len() ==> cands.contains(#[trigger] h[i])
            &&& forall|c: int| 0 <= c < cands.len() ==> lists(h, (#[trigger] cands[c]).1) || (h.len() == m && cands[c].0 >= h.last().0)
        }),
{
    lemma_nearest(cands, m, cands.len());
    lemma_nearest_all(cands, m, cands.len());
    let h = nearest(cands, m);
    assert forall|i: int| 0 <= i < h.len() implies cands.contains(#[trigger] h[i]) by {
        let k = choose|k: int| 0 <= k < cands.len() && cands[k] == h[i];
    }
}

/// Offer one candidate to the bounded list.
pub fn offer(h: &mut Vec<(i32, u32)>, m: usize, c: (i32, u32))
    requires
        m > 0,
        old(h)@.len() <= m,
    ensures
        final(h)@ == nearest_step(old(h)@, m as nat, c),
        final(h)@.len() <= m,
{
    let full = h.len() >= m;
    if full && c.0 >= h[h.len() - 1].0 {
        return;
    }
    let mut i: usize = 0;
    while i < h.len()
        invariant
            i <= h@.len(),
            h@ == old(h)@,
            h@.len() <= m,
            !(h@.len() >= m && c.0 >= h@.last().0),
            m > 0,
            forall|j: int| 0 <= j < i ==> (#[trigger] h@[j]).1 != c.1,
        decreases h@.len() - i,
    {
        if h[i].1 == c.1 {
            assert(lists(h@, c.1));
            return;
        }
        i = i + 1;
    }
    assert(!lists(h@, c.1));
    if full {
        h.truncate(m - 1);
        assert(h@ =~= old(h)@.drop_last());
    }
    proof {
        lemma_place_elements(h@, c);
    }
    crate::order::place_into(h, c);
}

// ---------------------------------------------------------------- exact rerank

/// Row that a slot reads: that of its point where rows are stored per point, else its own.
pub open spec fn row_index(slot_orig: Seq<u32>, slot: u32, by_orig: bool) -> int {
    if by_orig {
        slot_orig[slot as int] as int
    } else {
        slot as int
    }
}

/// Exactly scored candidates `(score, point)` of the first `n` pool entries; empty slots drop out.
pub open spec fn rescored(
    pool: Seq<(i32, u32)>,
    slot_orig: Seq<u32>,
    raw: Seq<i8>,
    d: nat,
    q: Seq<i8>,
    by_orig: bool,
    ip: bool,
    n: nat,
) -> Seq<(i32, u32)>
    decreases n,
{
    if n == 0 {
        Seq::empty()
    } else {
        let prev = rescored(pool, slot_orig, raw, d, q, by_orig, ip, (n - 1) as nat);
        let slot = pool[n - 1].1;
        let o = slot_orig[slot as int];
        if o == NO_POINT {
            prev
        } else {
            prev.push((score(ip, q, row_of(raw, d, row_index(slot_orig, slot, by_orig))) as i32, o))
        }
    }
}

/// Every slot of the pool exists, and the row that it reads is stored.
pub open spec fn rows_stored(pool: Seq<(i32, u32)>, slot_orig: Seq<u32>, raw_len: nat, d: nat, by_orig: bool) -> bool {
    forall|i: int| 0 <= i < pool.len() ==> {
        &&& (#[trigger] pool[i]).1 < slot_orig.len()
        &&& slot_orig[pool[i].1 as int] != NO_POINT ==> (row_index(slot_orig, pool[i].1, by_orig) + 1) * d <= raw_len
    }
}

/// Where every copy of a point stores the same vector, a point has one score.
pub proof fn lemma_rescored_has_one_score(
    pool: Seq<(i32, u32)>,
    slot_orig: Seq<u32>,
    raw: Seq<i8>,
    d: nat,
    q: Seq<i8>,
    by_orig: bool,
    ip: bool,
    n: nat,
)
    requires
        n <= pool.len(),
        slots_exist(pool, slot_orig),
        copies_agree(slot_orig, raw, d, by_orig),
    ensures
        one_score_per_id(rescored(pool, slot_orig, raw, d, q, by_orig, ip, n)),
        forall|i: int| 0 <= i < rescored(pool, slot_orig, raw, d, q, by_orig, ip, n).len() ==> exists|s: int| {
            &&& 0 <= s < slot_orig.len()
            &&& slot_orig[s] != NO_POINT
            &&& (#[trigger] rescored(pool, slot_orig, raw, d, q, by_orig, ip, n)[i]) == (score(ip, q, row_of(raw, d, row_index(slot_orig, s as u32, by_orig))) as i32, #[trigger] slot_orig[s])
            &&& s <= u32::MAX
        },
    decreases n,
{
    if n > 0 {
        let m = (n - 1) as nat;
        lemma_rescored_has_one_score(pool, slot_orig, raw, d, q, by_orig, ip, m);
        let prev = rescored(pool, slot_orig, raw, d, q, by_orig, ip, m);
        let cur = rescored(pool, slot_orig, raw, d, q, by_orig, ip, n);
        let slot = pool[m as int].1;
        assert(slot < slot_orig.len());
        assert forall|i: int| 0 <= i < cur.len() implies exists|s: int| {
            &&& 0 <= s < slot_orig.len()
            &&& slot_orig[s] != NO_POINT
            &&& (#[trigger] cur[i]) == (score(ip, q, row_of(raw, d, row_index(slot_orig, s as u32, by_orig))) as i32, #[trigger] slot_orig[s])
            &&& s <= u32::MAX
        } by {
            if i == prev.len() {
                assert(slot_orig[slot as int] != NO_POINT);
                assert((slot as int) as u32 == slot);
            } else {
                assert(cur[i] == prev[i]);
                let s = choose|s: int| {
                    &&& 0 <= s < slot_orig.len()
                    &&& slot_orig[s] != NO_POINT
                    &&& prev[i] == (score(ip, q, row_of(raw, d, row_index(slot_orig, s as u32, by_orig))) as i32, #[trigger] slot_orig[s])
                    &&& s <= u32::MAX
                };
                assert(slot_orig[s] != NO_POINT);
            }
        }
        assert forall|i: int, j: int| 0 <= i < cur.len() && 0 <= j < cur.len() && (#[trigger] cur[i]).1 == (#[trigger] cur[j]).1 implies cur[i].0 == cur[j].0 by {
            let a = choose|s: int| {
                &&& 0 <= s < slot_orig.len()
                &&& slot_orig[s] != NO_POINT
                &&& cur[i] == (score(ip, q, row_of(raw, d, row_index(slot_orig, s as u32, by_orig))) as i32, #[trigger] slot_orig[s])
                &&& s <= u32::MAX
            };
            let b = choose|s: int| {
                &&& 0 <= s < slot_orig.len()
                &&& slot_orig[s] != NO_POINT
                &&& cur[j] == (score(ip, q, row_of(raw, d, row_index(slot_orig, s as u32, by_orig))) as i32, #[trigger] slot_orig[s])
                &&& s <= u32::MAX
            };
            assert(slot_orig[a] == slot_orig[b]);
        }
    }
}

/// All slots of a point read the same vector.
pub open spec fn copies_agree(slot_orig: Seq<u32>, raw: Seq<i8>, d: nat, by_orig: bool) -> bool {
    forall|a: int, b: int|
        0 <= a < slot_orig.len() && 0 <= b < slot_orig.len() && a <= u32::MAX && b <= u32::MAX && #[trigger] slot_orig[a] == #[trigger] slot_orig[b]
            && slot_orig[a] != NO_POINT ==> row_of(raw, d, row_index(slot_orig, a as u32, by_orig)) == row_of(raw, d, row_index(slot_orig, b as u32, by_orig))
}

/// Exact rerank of a pool of `(approx, slot)`: up to `4 k` distinct points as `(score, point)`,
/// nearest first.
pub fn rerank_contig_pairs(
    raw: &[i8],
    d: usize,
    slot_orig: &[u32],
    q: &[i8],
    pool: &Vec<(i32, u32)>,
    k: usize,
    by_orig: bool,
    ip: bool,
) -> (r: Vec<(i32, u32)>)
    requires
        q@.len() == d,
        d <= L2_DIM,
        k <= usize::MAX / 4,
        rows_stored(pool@, slot_orig@, raw@.len(), d as nat, by_orig),
    ensures
        r@ == nearest(
            rescored(pool@, slot_orig@, raw@, d as nat, q@, by_orig, ip, pool@.len()),
            (if 4 * k < pool@.len() { 4 * k } else { pool@.len() as int }) as nat,
        ),
{
    let n: usize = pool.len();
    let m: usize = if k * 4 < n { k * 4 } else { n };
    let mut heap: Vec<(i32, u32)> = Vec::new();
    if m == 0 {
        assert(heap@ =~= Seq::<(i32, u32)>::empty());
        return heap;
    }
    let rlen: usize = raw.len();
    let mut i: usize = 0;
    let ghost mut cands: Seq<(i32, u32)> = Seq::empty();
    assert(heap@ =~= nearest_upto(cands, m as nat, 0));
    while i < n
        invariant
            i <= n,
            n == pool@.len(),
            m > 0,
            rlen == raw@.len(),
            q@.len() == d,
            d <= L2_DIM,
            rows_stored(pool@, slot_orig@, raw@.len(), d as nat, by_orig),
            cands == rescored(pool@, slot_orig@, raw@, d as nat, q@, by_orig, ip, i as nat),
            heap@ == nearest_upto(cands, m as nat, cands.len()),
            heap@.len() <= m,
        decreases n - i,
    {
        assert(pool@[i as int].1 < slot_orig@.len());
        let slot: u32 = pool[i].1;
        let orig: u32 = slot_orig[slot as usize];
        if orig != NO_POINT {
            let ri: usize = if by_orig { orig as usize } else { slot as usize };
            proof {
                let rr = ri as int;
                let dd = d as int;
                assert((rr + 1) * dd == rr * dd + dd && 0 <= rr * dd) by (nonlinear_arith)
                    requires
                        rr >= 0,
                        dd >= 0,
                ;
            }
            let row = slice_subrange(raw, ri * d, ri * d + d);
            assert(row@ =~= row_of(raw@, d as nat, row_index(slot_orig@, slot, by_orig)));
            let dist: i32 = score_row(ip, q, row);
            proof {
                lemma_upto_prefix(cands, cands.push((dist, orig)), m as nat, cands.len());
                cands = cands.push((dist, orig));
            }
            offer(&mut heap, m, (dist, orig));
        }
        i = i + 1;
    }
    heap
}

/// The list after `n` candidates looks at those only.
proof fn lemma_upto_prefix(a: Seq<(i32, u32)>, b: Seq<(i32, u32)>, m: nat, n: nat)
    requires
        n <= a.len(),
        n <= b.len(),
        forall|i: int| 0 <= i < n ==> #[trigger] a[i] == b[i],
    ensures
        nearest_upto(a, m, n) == nearest_upto(b, m, n),
    decreases n,
{
    if n > 0 {
        lemma_upto_prefix(a, b, m, (n - 1) as nat);
        assert(a[n - 1] == b[n - 1]);
    }
}

/// The ids of the first `k` entries.
pub open spec fn first_ids(s: Seq<(i32, u32)>, k: nat) -> Seq<u32> {
    Seq::new(if k < s.len() { k } else { s.len() }, |i: int| s[i].1)
}

/// Ids of the first `k` entries of a scored list.
pub fn take_ids(v: &Vec<(i32, u32)>, k: usize) -> (r: Vec<u32>)
    ensures
        r@ == first_ids(v@, k as nat),
{
    let n: usize = if k < v.len() { k } else { v.len() };
    let mut out: Vec<u32> = Vec::with_capacity(n);
    let mut i: usize = 0;
    while i < n
        invariant
            i <= n,
            n <= v@.len(),
            out@.len() == i,
            forall|j: int| 0 <= j < i ==> #[trigger] out@[j] == v@[j].1,
        decreases n - i,
    {
        out.push(v[i].1);
        i = i + 1;
    }
    assert(out@ =~= first_ids(v@, k as nat));
    out
}

/// Exact rerank of a pool of `(approx, slot)` to the ids of the `k` nearest distinct points.
pub fn rerank_contig(
    raw: &[i8],
    d: usize,
    slot_orig: &[u32],
    q: &[i8],
    pool: &Vec<(i32, u32)>,
    k: usize,
    by_orig: bool,
    ip: bool,
) -> (r: Vec<u32>)
    requires
        q@.len() == d,
        d <= L2_DIM,
        k <= usize::MAX / 4,
        rows_stored(pool@, slot_orig@, raw@.len(), d as nat, by_orig),
    ensures
        r@ == reranked(pool@, slot_orig@, raw@, d as nat, q@, by_orig, ip, k as nat),
{
    let v = rerank_contig_pairs(raw, d, slot_orig, q, pool, k, by_orig, ip);
    take_ids(&v, k)
}

/// The `k` nearest distinct points of a pool, by exact score.
pub open spec fn reranked(
    pool: Seq<(i32, u32)>,
    slot_orig: Seq<u32>,
    raw: Seq<i8>,
    d: nat,
    q: Seq<i8>,
    by_orig: bool,
    ip: bool,
    k: nat,
) -> Seq<u32> {
    first_ids(
        nearest(
            rescored(pool, slot_orig, raw, d, q, by_orig, ip, pool.len()),
            (if 4 * k < pool.len() { 4 * k } else { pool.len() }) as nat,
        ),
        k,
    )
}

/// Candidates `(squared L2, id)` of a pool of `(approx, id)` over row-major `rows`.
pub open spec fn scored_ids(pool: Seq<(i32, u32)>, rows: Seq<i8>, d: nat, q: Seq<i8>) -> Seq<(i32, u32)> {
    Seq::new(pool.len(), |i: int| (l2(q, row_of(rows, d, pool[i].1 as int)) as i32, pool[i].1))
}

/// Exact L2 rerank of a pool of `(approx, id)` against the base rows.
pub fn rerank_survivors(rows: &[i8], d: usize, q: &[i8], pool: &Vec<(i32, u32)>, k: usize) -> (r: Vec<u32>)
    requires
        q@.len() == d,
        d <= L2_DIM,
        k <= usize::MAX / 4,
        forall|i: int| 0 <= i < pool@.len() ==> ((#[trigger] pool@[i]).1 + 1) * d <= rows@.len(),
    ensures
        r@ == first_ids(
            nearest(scored_ids(pool@, rows@, d as nat, q@), (if 4 * k < pool@.len() { 4 * k } else { pool@.len() as int }) as nat),
            k as nat,
        ),
{
    let n: usize = pool.len();
    let m: usize = if k * 4 < n { k * 4 } else { n };
    let mut heap: Vec<(i32, u32)> = Vec::new();
    let ghost cands = scored_ids(pool@, rows@, d as nat, q@);
    if m == 0 {
        assert(heap@ =~= nearest(cands, 0));
        return take_ids(&heap, k);
    }
    let rlen: usize = rows.len();
    let mut i: usize = 0;
    assert(heap@ =~= nearest_upto(cands, m as nat, 0));
    while i < n
        invariant
            i <= n,
            n == pool@.len(),
            m > 0,
            rlen == rows@.len(),
            q@.len() == d,
            d <= L2_DIM,
            forall|j: int| 0 <= j < pool@.len() ==> ((#[trigger] pool@[j]).1 + 1) * d <= rows@.len(),
            cands == scored_ids(pool@, rows@, d as nat, q@),
            heap@ == nearest_upto(cands, m as nat, i as nat),
            heap@.len() <= m,
        decreases n - i,
    {
        let id: u32 = pool[i].1;
        proof {
            assert((pool@[i as int].1 + 1) * d <= rows@.len());
            let rr = id as int;
            let dd = d as int;
            assert((rr + 1) * dd == rr * dd + dd && 0 <= rr * dd) by (nonlinear_arith)
                requires
                    rr >= 0,
                    dd >= 0,
            ;
        }
        let row = slice_subrange(rows, id as usize * d, id as usize * d + d);
        assert(row@ =~= row_of(rows@, d as nat, id as int));
        let dist: i32 = l2_i8(q, row);
        assert(cands[i as int] == (dist, id));
        offer(&mut heap, m, (dist, id));
        i = i + 1;
    }
    take_ids(&heap, k)
}

// ---------------------------------------------------------------- first distinct ids

/// The distinct ids of the first `n` entries in order, at most `k` of them.
pub open spec fn distinct_ids(s: Seq<(i32, u32)>, k: nat, n: nat) -> Seq<u32>
    decreases n,
{
    if n == 0 {
        Seq::empty()
    } else {
        let prev = distinct_ids(s, k, (n - 1) as nat);
        if prev.contains(s[n - 1].1) || prev.len() >= k {
            prev
        } else {
            prev.push(s[n - 1].1)
        }
    }
}

proof fn lemma_distinct_full(s: Seq<(i32, u32)>, k: nat, n: nat, e: nat)
    requires
        n <= e,
        distinct_ids(s, k, n).len() >= k,
    ensures
        distinct_ids(s, k, e) == distinct_ids(s, k, n),
    decreases e,
{
    if n < e {
        lemma_distinct_full(s, k, n, (e - 1) as nat);
    }
}

/// The distinct ids of a scored list in order, at most `k` of them.
pub fn take_distinct(cand: &Vec<(i32, u32)>, k: usize) -> (r: Vec<u32>)
    ensures
        r@ == distinct_ids(cand@, k as nat, cand@.len()),
{
    let mut out: Vec<u32> = Vec::new();
    let mut i: usize = 0;
    assert(out@ =~= distinct_ids(cand@, k as nat, 0));
    while i < cand.len() && out.len() < k
        invariant
            i <= cand@.len(),
            out@ == distinct_ids(cand@, k as nat, i as nat),
        decreases cand@.len() - i,
    {
        let id: u32 = cand[i].1;
        let mut seen = false;
        let mut j: usize = 0;
        while j < out.len()
            invariant
                j <= out@.len(),
                seen <==> exists|x: int| 0 <= x < j && #[trigger] out@[x] == id,
            decreases out@.len() - j,
        {
            if out[j] == id {
                seen = true;
            }
            j = j + 1;
        }
        assert(seen <==> out@.contains(id));
        if !seen {
            out.push(id);
        }
        i = i + 1;
    }
    proof {
        if i < cand@.len() {
            lemma_distinct_full(cand@, k as nat, i as nat, cand@.len());
        }
    }
    out
}

/// The `k` nearest distinct ids of a candidate list, by ascending distance.
pub fn topk_dedup(cand: Vec<(i32, u32)>, k: usize) -> (r: Vec<u32>)
    ensures
        r@ == distinct_ids(ascending(cand@), k as nat, cand@.len()),
{
    let mut cand = cand;
    let ghost all = cand@;
    crate::order::sort_ascending(&mut cand);
    proof {
        lemma_ascending(all);
    }
    take_distinct(&cand, k)
}

/// The distinct ids come from the list, none twice, and every id is among them unless `k` are.
pub proof fn law_distinct_ids(s: Seq<(i32, u32)>, k: nat, n: nat)
    requires
        n <= s.len(),
    ensures
        distinct_ids(s, k, n).no_duplicates(),
        distinct_ids(s, k, n).len() <= k,
        forall|i: int| 0 <= i < distinct_ids(s, k, n).len() ==> exists|j: int| 0 <= j < n && (#[trigger] s[j]).1 == #[trigger] distinct_ids(s, k, n)[i],
        forall|j: int| 0 <= j < n ==> distinct_ids(s, k, n).contains((#[trigger] s[j]).1) || distinct_ids(s, k, n).len() == k,
    decreases n,
{
    if n > 0 {
        let m = (n - 1) as nat;
        law_distinct_ids(s, k, m);
        let p = distinct_ids(s, k, m);
        let r = distinct_ids(s, k, n);
        let id = s[m as int].1;
        assert forall|i: int| 0 <= i < r.len() implies exists|j: int| 0 <= j < n && (#[trigger] s[j]).1 == #[trigger] r[i] by {
            if i < p.len() {
                assert(r[i] == p[i]);
                let j = choose|j: int| 0 <= j < m && (#[trigger] s[j]).1 == p[i];
                assert(s[j].1 == r[i]);
            } else {
                assert(s[m as int].1 == r[i]);
            }
        }
        assert forall|j: int| 0 <= j < n implies r.contains((#[trigger] s[j]).1) || r.len() == k by {
            if j < m {
                if p.contains(s[j].1) {
                    let x = choose|x: int| 0 <= x < p.len() && p[x] == s[j].1;
                    assert(r[x] == s[j].1);
                }
            } else if r.len() > p.len() {
                assert(r[p.len() as int] == id);
            }
        }
    }
}

} // verus!
